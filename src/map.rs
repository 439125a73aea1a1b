use vstd::prelude::*;
use crate::rect::Rect;
use crate::rng::rng_range;
use rltk::RandomNumberGenerator;

verus! {

pub const MAPWIDTH: i32 = 80;
pub const MAPHEIGHT: i32 = 50;
pub const MAPCOUNT: usize = 4000;

#[derive(Clone, Copy, Debug, PartialEq, Eq, Structural)]
pub enum TileType {
    Wall,
    Floor,
}

pub open spec fn in_bounds(x: int, y: int) -> bool {
    0 <= x < MAPWIDTH && 0 <= y < MAPHEIGHT
}

/// Row-major index of a tile, origin top-left.
pub open spec fn idx_of(x: int, y: int) -> int {
    y * MAPWIDTH + x
}

pub open spec fn is_floor(t: Seq<TileType>, x: int, y: int) -> bool {
    in_bounds(x, y) && t[idx_of(x, y)] == TileType::Floor
}

/// Two tiles that share an edge.
pub open spec fn is_step(x1: int, y1: int, x2: int, y2: int) -> bool {
    (x1 == x2 && (y1 == y2 + 1 || y2 == y1 + 1)) || (y1 == y2 && (x1 == x2 + 1 || x2 == x1 + 1))
}

/// A walk over floor tiles, each tile sharing an edge with the next.
pub open spec fn is_floor_path(t: Seq<TileType>, path: Seq<(int, int)>) -> bool {
    &&& path.len() >= 1
    &&& forall|k: int| 0 <= k < path.len() ==> #[trigger] is_floor(t, path[k].0, path[k].1)
    &&& forall|k: int|
        0 <= k < path.len() - 1 ==> #[trigger] is_step(
            path[k].0,
            path[k].1,
            path[k + 1].0,
            path[k + 1].1,
        )
}

/// Every floor tile has a neighbouring floor tile strictly closer to the source (sx, sy).
pub open spec fn descent(
    t: Seq<TileType>,
    sx: int,
    sy: int,
    parent: spec_fn(int, int) -> (int, int),
    dist: spec_fn(int, int) -> nat,
) -> bool {
    &&& is_floor(t, sx, sy)
    &&& forall|x: int, y: int|
        #[trigger] is_floor(t, x, y) && !(x == sx && y == sy) ==> {
            let p = parent(x, y);
            is_floor(t, p.0, p.1) && is_step(x, y, p.0, p.1) && dist(p.0, p.1) < dist(x, y)
        }
}

/// Every floor tile can be walked to from (sx, sy).
pub open spec fn connected(t: Seq<TileType>, sx: int, sy: int) -> bool {
    exists|parent: spec_fn(int, int) -> (int, int), dist: spec_fn(int, int) -> nat|
        descent(t, sx, sy, parent, dist)
}

proof fn lemma_idx_injective(x1: int, y1: int, x2: int, y2: int)
    requires
        in_bounds(x1, y1),
        in_bounds(x2, y2),
        idx_of(x1, y1) == idx_of(x2, y2),
    ensures
        x1 == x2 && y1 == y2,
{
}

/// Turning a wall next to a reachable floor tile into floor keeps the map connected.
proof fn lemma_carve_keeps_connected(t: Seq<TileType>, sx: int, sy: int, x: int, y: int, px: int, py: int)
    requires
        t.len() == MAPCOUNT,
        connected(t, sx, sy),
        in_bounds(x, y),
        is_floor(t, px, py),
        is_step(x, y, px, py),
    ensures
        connected(t.update(idx_of(x, y), TileType::Floor), sx, sy),
{
    let t2 = t.update(idx_of(x, y), TileType::Floor);
    if t[idx_of(x, y)] == TileType::Floor {
        assert(t2 =~= t);
    } else {
        let (parent, dist) = choose|parent: spec_fn(int, int) -> (int, int), dist: spec_fn(int, int) -> nat|
            descent(t, sx, sy, parent, dist);
        let parent2 = |a: int, b: int| if a == x && b == y { (px, py) } else { parent(a, b) };
        let dist2 = |a: int, b: int| if a == x && b == y { dist(px, py) + 1 } else { dist(a, b) };
        assert forall|a: int, b: int|
            #[trigger] is_floor(t2, a, b) && !(a == sx && b == sy) implies {
                let p = parent2(a, b);
                is_floor(t2, p.0, p.1) && is_step(a, b, p.0, p.1) && dist2(p.0, p.1) < dist2(a, b)
            } by {
            if a == x && b == y {
                assert(is_floor(t2, px, py));
                if px == x && py == y {
                }
            } else {
                if idx_of(a, b) == idx_of(x, y) {
                    lemma_idx_injective(a, b, x, y);
                }
                assert(is_floor(t, a, b));
                let p = parent(a, b);
                assert(is_floor(t, p.0, p.1));
                if p.0 == x && p.1 == y {
                }
                if idx_of(p.0, p.1) == idx_of(x, y) {
                    lemma_idx_injective(p.0, p.1, x, y);
                }
                assert(is_floor(t2, p.0, p.1));
            }
        }
        if idx_of(sx, sy) == idx_of(x, y) {
            lemma_idx_injective(sx, sy, x, y);
        }
        assert(is_floor(t2, sx, sy));
        assert(descent(t2, sx, sy, parent2, dist2));
    }
}

proof fn lemma_descent_path(
    t: Seq<TileType>,
    sx: int,
    sy: int,
    parent: spec_fn(int, int) -> (int, int),
    dist: spec_fn(int, int) -> nat,
    x: int,
    y: int,
) -> (path: Seq<(int, int)>)
    requires
        descent(t, sx, sy, parent, dist),
        is_floor(t, x, y),
    ensures
        is_floor_path(t, path),
        path[0] == (x, y),
        path.last() == (sx, sy),
    decreases dist(x, y),
{
    if x == sx && y == sy {
        let path = seq![(x, y)];
        assert(is_floor(t, path[0].0, path[0].1));
        path
    } else {
        let p = parent(x, y);
        assert(is_floor(t, x, y));
        let rest = lemma_descent_path(t, sx, sy, parent, dist, p.0, p.1);
        let path = seq![(x, y)] + rest;
        assert forall|k: int| 0 <= k < path.len() implies #[trigger] is_floor(t, path[k].0, path[k].1) by {
            if k > 0 {
                assert(path[k] == rest[k - 1]);
            }
        }
        assert forall|k: int| 0 <= k < path.len() - 1 implies #[trigger] is_step(
            path[k].0,
            path[k].1,
            path[k + 1].0,
            path[k + 1].1,
        ) by {
            if k > 0 {
                assert(path[k] == rest[k - 1]);
                assert(path[k + 1] == rest[k]);
                let j = k - 1;
                assert(is_step(rest[j].0, rest[j].1, rest[j + 1].0, rest[j + 1].1));
            } else {
                assert(path[1] == rest[0]);
            }
        }
        assert(path.last() == rest.last());
        path
    }
}

/// In a connected tile grid, every floor tile has a walk over floor tiles to the source.
pub proof fn lemma_connected_paths(t: Seq<TileType>, sx: int, sy: int, x: int, y: int)
    requires
        connected(t, sx, sy),
        is_floor(t, x, y),
    ensures
        exists|path: Seq<(int, int)>|
            is_floor_path(t, path) && path[0] == (x, y) && path.last() == (sx, sy),
{
    let (parent, dist) = choose|parent: spec_fn(int, int) -> (int, int), dist: spec_fn(int, int) -> nat|
        descent(t, sx, sy, parent, dist);
    let path = lemma_descent_path(t, sx, sy, parent, dist, x, y);
    assert(is_floor_path(t, path) && path[0] == (x, y) && path.last() == (sx, sy));
}

pub open spec fn between(a: int, b: int, c: int) -> bool {
    (a <= b <= c) || (c <= b <= a)
}

/// A room whose carved interior and centre lie inside the grid, off its outer edge.
pub open spec fn fits(r: Rect) -> bool {
    &&& 0 <= r.x1
    &&& r.x1 + 2 <= r.x2
    &&& r.x2 < MAPWIDTH - 1
    &&& 0 <= r.y1
    &&& r.y1 + 2 <= r.y2
    &&& r.y2 < MAPHEIGHT - 1
}

/// Row-major index of (x, y).
pub fn xy_idx(x: i32, y: i32) -> (r: usize)
    requires
        in_bounds(x as int, y as int),
    ensures
        r as int == idx_of(x as int, y as int),
        r < MAPCOUNT,
{
    y as usize * 80 + x as usize
}

/// Carves floor along row `y` from `x_from` to `x_to`, starting on a floor tile.
fn carve_h(tiles: &mut Vec<TileType>, x_from: i32, x_to: i32, y: i32, sx: Ghost<int>, sy: Ghost<int>)
    requires
        old(tiles).len() == MAPCOUNT,
        connected(old(tiles)@, sx@, sy@),
        is_floor(old(tiles)@, x_from as int, y as int),
        in_bounds(x_to as int, y as int),
    ensures
        final(tiles).len() == MAPCOUNT,
        connected(final(tiles)@, sx@, sy@),
        forall|a: int| between(x_from as int, a, x_to as int) ==> is_floor(final(tiles)@, a, y as int),
        forall|a: int, b: int|
            in_bounds(a, b) && !(b == y && between(x_from as int, a, x_to as int)) ==> final(tiles)@[idx_of(a, b)]
                == old(tiles)@[idx_of(a, b)],
        forall|i: int| 0 <= i < MAPCOUNT && old(tiles)@[i] == TileType::Floor ==> final(tiles)@[i] == TileType::Floor,
{
    let mut x: i32 = x_from;
    while x != x_to
        invariant
            tiles.len() == MAPCOUNT,
            old(tiles).len() == MAPCOUNT,
            in_bounds(x_from as int, y as int),
            in_bounds(x_to as int, y as int),
            between(x_from as int, x as int, x_to as int),
            connected(tiles@, sx@, sy@),
            forall|a: int| between(x_from as int, a, x as int) ==> is_floor(tiles@, a, y as int),
            forall|a: int, b: int|
                in_bounds(a, b) && !(b == y && between(x_from as int, a, x as int)) ==> tiles@[idx_of(a, b)]
                    == old(tiles)@[idx_of(a, b)],
            forall|i: int| 0 <= i < MAPCOUNT && old(tiles)@[i] == TileType::Floor ==> tiles@[i] == TileType::Floor,
        decreases if x <= x_to { x_to - x } else { x - x_to },
    {
        let prev = x;
        assert(between(x_from as int, prev as int, prev as int));
        if x < x_to {
            x = x + 1;
        } else {
            x = x - 1;
        }
        assert(is_floor(tiles@, prev as int, y as int));
        proof {
            lemma_carve_keeps_connected(tiles@, sx@, sy@, x as int, y as int, prev as int, y as int);
        }
        let i = xy_idx(x, y);
        tiles.set(i, TileType::Floor);
        assert forall|a: int, b: int|
            in_bounds(a, b) && !(b == y && between(x_from as int, a, x as int)) implies tiles@[idx_of(a, b)]
                == old(tiles)@[idx_of(a, b)] by {
            if idx_of(a, b) == idx_of(x as int, y as int) {
                lemma_idx_injective(a, b, x as int, y as int);
            }
        }
        assert forall|a: int| between(x_from as int, a, x as int) implies is_floor(tiles@, a, y as int) by {
            if a != x {
                assert(between(x_from as int, a, prev as int));
                if idx_of(a, y as int) == idx_of(x as int, y as int) {
                    lemma_idx_injective(a, y as int, x as int, y as int);
                }
            }
        }
    }
}

/// Carves floor along column `x` from `y_from` to `y_to`, starting on a floor tile.
fn carve_v(tiles: &mut Vec<TileType>, x: i32, y_from: i32, y_to: i32, sx: Ghost<int>, sy: Ghost<int>)
    requires
        old(tiles).len() == MAPCOUNT,
        connected(old(tiles)@, sx@, sy@),
        is_floor(old(tiles)@, x as int, y_from as int),
        in_bounds(x as int, y_to as int),
    ensures
        final(tiles).len() == MAPCOUNT,
        connected(final(tiles)@, sx@, sy@),
        forall|b: int| between(y_from as int, b, y_to as int) ==> is_floor(final(tiles)@, x as int, b),
        forall|a: int, b: int|
            in_bounds(a, b) && !(a == x && between(y_from as int, b, y_to as int)) ==> final(tiles)@[idx_of(a, b)]
                == old(tiles)@[idx_of(a, b)],
        forall|i: int| 0 <= i < MAPCOUNT && old(tiles)@[i] == TileType::Floor ==> final(tiles)@[i] == TileType::Floor,
{
    let mut y: i32 = y_from;
    while y != y_to
        invariant
            tiles.len() == MAPCOUNT,
            old(tiles).len() == MAPCOUNT,
            in_bounds(x as int, y_from as int),
            in_bounds(x as int, y_to as int),
            between(y_from as int, y as int, y_to as int),
            connected(tiles@, sx@, sy@),
            forall|b: int| between(y_from as int, b, y as int) ==> is_floor(tiles@, x as int, b),
            forall|a: int, b: int|
                in_bounds(a, b) && !(a == x && between(y_from as int, b, y as int)) ==> tiles@[idx_of(a, b)]
                    == old(tiles)@[idx_of(a, b)],
            forall|i: int| 0 <= i < MAPCOUNT && old(tiles)@[i] == TileType::Floor ==> tiles@[i] == TileType::Floor,
        decreases if y <= y_to { y_to - y } else { y - y_to },
    {
        let prev = y;
        assert(between(y_from as int, prev as int, prev as int));
        if y < y_to {
            y = y + 1;
        } else {
            y = y - 1;
        }
        assert(is_floor(tiles@, x as int, prev as int));
        proof {
            lemma_carve_keeps_connected(tiles@, sx@, sy@, x as int, y as int, x as int, prev as int);
        }
        let i = xy_idx(x, y);
        tiles.set(i, TileType::Floor);
        assert forall|a: int, b: int|
            in_bounds(a, b) && !(a == x && between(y_from as int, b, y as int)) implies tiles@[idx_of(a, b)]
                == old(tiles)@[idx_of(a, b)] by {
            if idx_of(a, b) == idx_of(x as int, y as int) {
                lemma_idx_injective(a, b, x as int, y as int);
            }
        }
        assert forall|b: int| between(y_from as int, b, y as int) implies is_floor(tiles@, x as int, b) by {
            if b != y {
                assert(between(y_from as int, b, prev as int));
                if idx_of(x as int, b) == idx_of(x as int, y as int) {
                    lemma_idx_injective(x as int, b, x as int, y as int);
                }
            }
        }
    }
}

/// Carves the interior of `room` into floor, starting from its centre, which must be floor.
fn carve_room(tiles: &mut Vec<TileType>, room: &Rect, sx: Ghost<int>, sy: Ghost<int>)
    requires
        old(tiles).len() == MAPCOUNT,
        connected(old(tiles)@, sx@, sy@),
        fits(*room),
        is_floor(old(tiles)@, room.spec_center().0, room.spec_center().1),
    ensures
        final(tiles).len() == MAPCOUNT,
        connected(final(tiles)@, sx@, sy@),
        forall|a: int, b: int| room.interior_contains(a, b) ==> is_floor(final(tiles)@, a, b),
        forall|a: int, b: int|
            in_bounds(a, b) && !room.interior_contains(a, b) ==> final(tiles)@[idx_of(a, b)] == old(tiles)@[idx_of(a, b)],
{
    let (cx, cy) = room.center();
    carve_h(tiles, cx, room.x1 + 1, cy, sx, sy);
    let ghost mid = tiles@;
    carve_h(tiles, cx, room.x2, cy, sx, sy);
    assert forall|a: int| room.x1 < a <= room.x2 implies is_floor(tiles@, a, cy as int) by {
        if a <= cx {
            assert(between(cx as int, a, room.x1 + 1));
            assert(is_floor(mid, a, cy as int));
            assert(0 <= idx_of(a, cy as int) < MAPCOUNT);
        } else {
            assert(between(cx as int, a, room.x2 as int));
        }
    }
    let mut x: i32 = room.x1 + 1;
    while x <= room.x2
        invariant
            fits(*room),
            cx as int == room.spec_center().0,
            cy as int == room.spec_center().1,
            room.x1 + 1 <= x <= room.x2 + 1,
            tiles.len() == MAPCOUNT,
            old(tiles).len() == MAPCOUNT,
            connected(tiles@, sx@, sy@),
            forall|a: int| room.x1 < a <= room.x2 ==> is_floor(tiles@, a, cy as int),
            forall|a: int, b: int| room.x1 < a < x && room.y1 < b <= room.y2 ==> is_floor(tiles@, a, b),
            forall|a: int, b: int|
                in_bounds(a, b) && !room.interior_contains(a, b) ==> tiles@[idx_of(a, b)] == old(tiles)@[idx_of(a, b)],
        decreases room.x2 + 1 - x,
    {
        assert(is_floor(tiles@, x as int, cy as int));
        let ghost before = tiles@;
        carve_v(tiles, x, cy, room.y1 + 1, sx, sy);
        carve_v(tiles, x, cy, room.y2, sx, sy);
        assert forall|a: int, b: int| room.x1 < a < x + 1 && room.y1 < b <= room.y2 implies is_floor(tiles@, a, b) by {
            if a != x {
                assert(is_floor(before, a, b));
            } else if b <= cy {
                assert(between(cy as int, b, room.y1 + 1));
            } else {
                assert(between(cy as int, b, room.y2 as int));
            }
        }
        assert forall|a: int| room.x1 < a <= room.x2 implies is_floor(tiles@, a, cy as int) by {
            assert(is_floor(before, a, cy as int));
        }
        x = x + 1;
    }
}

/// `c` touches none of `rooms`.
pub open spec fn clear_of(c: Rect, rooms: Seq<Rect>) -> bool {
    forall|k: int| 0 <= k < rooms.len() ==> !c.spec_intersect(#[trigger] rooms[k])
}

/// The rooms kept from the first `k` candidates: each one that fits and touches no room
/// kept before it.
pub open spec fn accepted_rooms(cands: Seq<Rect>, k: int) -> Seq<Rect>
    decreases k,
{
    if k <= 0 {
        seq![]
    } else {
        let r = accepted_rooms(cands, k - 1);
        let c = cands[k - 1];
        if fits(c) && clear_of(c, r) {
            r.push(c)
        } else {
            r
        }
    }
}

/// (x, y) lies on the corridor from room `a`'s centre to room `b`'s: along `a`'s centre
/// row to `b`'s centre column, then along that column.
pub open spec fn on_corridor(a: Rect, b: Rect, x: int, y: int) -> bool {
    (y == a.spec_center().1 && between(a.spec_center().0, x, b.spec_center().0)) || (x == b.spec_center().0
        && between(a.spec_center().1, y, b.spec_center().1))
}

/// (x, y) was carved for `rooms`: inside a room, or on the corridor joining a room to the
/// one before it.
pub open spec fn carved(rooms: Seq<Rect>, x: int, y: int) -> bool {
    exists|k: int|
        0 <= k < rooms.len() && (#[trigger] rooms[k].interior_contains(x, y) || (k > 0 && on_corridor(
            rooms[k - 1],
            rooms[k],
            x,
            y,
        )))
}

/// Carving room `c` after its corridor keeps the floor tiles exactly the carved ones.
proof fn lemma_push_room_carved(
    old_tiles: Seq<TileType>,
    before_room: Seq<TileType>,
    tiles: Seq<TileType>,
    old_rooms: Seq<Rect>,
    c: Rect,
)
    requires
        old_tiles.len() == MAPCOUNT,
        before_room.len() == MAPCOUNT,
        tiles.len() == MAPCOUNT,
        forall|a: int, b: int| #[trigger] in_bounds(a, b) ==> (is_floor(old_tiles, a, b) <==> carved(old_rooms, a, b)),
        forall|a: int, b: int|
            #[trigger] in_bounds(a, b) ==> (is_floor(before_room, a, b) <==> (is_floor(old_tiles, a, b) || (old_rooms.len() == 0
                && a == c.spec_center().0 && b == c.spec_center().1) || (old_rooms.len() > 0 && on_corridor(
                old_rooms[old_rooms.len() - 1],
                c,
                a,
                b,
            )))),
        c.interior_contains(c.spec_center().0, c.spec_center().1),
        forall|a: int, b: int| c.interior_contains(a, b) ==> is_floor(tiles, a, b),
        forall|a: int, b: int| in_bounds(a, b) && !c.interior_contains(a, b) ==> tiles[idx_of(a, b)] == before_room[idx_of(a, b)],
    ensures
        forall|a: int, b: int| #[trigger] in_bounds(a, b) ==> (is_floor(tiles, a, b) <==> carved(old_rooms.push(c), a, b)),
{
    let rooms = old_rooms.push(c);
    let n = old_rooms.len() as int;
    assert forall|a: int, b: int| #[trigger] in_bounds(a, b) implies (is_floor(tiles, a, b) <==> carved(rooms, a, b)) by {
        assert(rooms[n] == c);
        if is_floor(tiles, a, b) {
            if c.interior_contains(a, b) {
                assert(rooms[n].interior_contains(a, b));
            } else {
                assert(is_floor(before_room, a, b));
                if n > 0 && on_corridor(old_rooms[n - 1], c, a, b) {
                    assert(rooms[n - 1] == old_rooms[n - 1]);
                } else if n == 0 && a == c.spec_center().0 && b == c.spec_center().1 {
                    assert(rooms[n].interior_contains(a, b));
                } else {
                    assert(is_floor(old_tiles, a, b));
                    let k = choose|k: int|
                        0 <= k < old_rooms.len() && (#[trigger] old_rooms[k].interior_contains(a, b) || (k > 0
                            && on_corridor(old_rooms[k - 1], old_rooms[k], a, b)));
                    assert(rooms[k] == old_rooms[k]);
                    if k > 0 {
                        assert(rooms[k - 1] == old_rooms[k - 1]);
                    }
                }
            }
        }
        if carved(rooms, a, b) {
            let k = choose|k: int|
                0 <= k < rooms.len() && (#[trigger] rooms[k].interior_contains(a, b) || (k > 0
                    && on_corridor(rooms[k - 1], rooms[k], a, b)));
            if k < n {
                assert(rooms[k] == old_rooms[k]);
                if k > 0 {
                    assert(rooms[k - 1] == old_rooms[k - 1]);
                }
                assert(carved(old_rooms, a, b));
                assert(is_floor(old_tiles, a, b));
                assert(is_floor(before_room, a, b));
            } else if !c.interior_contains(a, b) {
                assert(rooms[n - 1] == old_rooms[n - 1]);
                assert(is_floor(before_room, a, b));
            }
        }
    }
}

proof fn lemma_accepted_len(cands: Seq<Rect>, k: int)
    requires
        0 <= k,
    ensures
        accepted_rooms(cands, k).len() <= k,
    decreases k,
{
    if k > 0 {
        lemma_accepted_len(cands, k - 1);
    }
}

pub const MAX_ROOMS: usize = 30;
pub const MIN_SIZE: i32 = 6;
pub const MAX_SIZE: i32 = 10;

/// The tile grid with its per-turn bitsets and the rooms it was generated from.
pub struct GameMap {
    pub tiles: Vec<TileType>,
    pub rooms: Vec<Rect>,
    pub revealed_tiles: Vec<bool>,
    pub visible_tiles: Vec<bool>,
    pub blocked: Vec<bool>,
    pub tile_content: Vec<Vec<usize>>,
}

impl GameMap {
    pub open spec fn spawn(&self) -> (int, int) {
        self.rooms@[0].spec_center()
    }

    pub open spec fn wf(&self) -> bool {
        &&& self.tiles@.len() == MAPCOUNT
        &&& self.revealed_tiles@.len() == MAPCOUNT
        &&& self.visible_tiles@.len() == MAPCOUNT
        &&& self.blocked@.len() == MAPCOUNT
        &&& self.tile_content@.len() == MAPCOUNT
        &&& self.rooms@.len() >= 1
        &&& forall|k: int| 0 <= k < self.rooms@.len() ==> fits(#[trigger] self.rooms@[k])
        &&& connected(self.tiles@, self.spawn().0, self.spawn().1)
    }

    /// Draws up to `MAX_ROOMS` rooms of random size and place and builds the map from them.
    /// The first draw always fits, so the map has at least one room.
    pub fn new_map_rooms_and_corridors(rng: &mut RandomNumberGenerator) -> (r: GameMap)
        ensures
            r.wf(),
            r.rooms@.len() <= MAX_ROOMS,
            forall|k: int|
                0 <= k < r.rooms@.len() ==> MIN_SIZE <= (#[trigger] r.rooms@[k]).x2 - r.rooms@[k].x1 < MAX_SIZE
                    && MIN_SIZE <= r.rooms@[k].y2 - r.rooms@[k].y1 < MAX_SIZE,
            forall|a: int, b: int| #[trigger] in_bounds(a, b) ==> (is_floor(r.tiles@, a, b) <==> carved(r.rooms@, a, b)),
            forall|i: int| 0 <= i < MAPCOUNT ==> !r.revealed_tiles@[i] && !r.visible_tiles@[i] && !r.blocked@[i],
            forall|i: int| 0 <= i < MAPCOUNT ==> (#[trigger] r.tile_content@[i])@.len() == 0,
            forall|k1: int, k2: int|
                0 <= k1 < r.rooms@.len() && 0 <= k2 < r.rooms@.len() && k1 != k2
                    ==> !(#[trigger] r.rooms@[k1]).spec_intersect(#[trigger] r.rooms@[k2]),
            forall|k: int, a: int, b: int|
                0 <= k < r.rooms@.len() && #[trigger] r.rooms@[k].interior_contains(a, b) ==> is_floor(r.tiles@, a, b),
    {
        let mut candidates: Vec<Rect> = Vec::new();
        let mut n: usize = 0;
        while n < MAX_ROOMS
            invariant
                n <= MAX_ROOMS,
                candidates@.len() == n,
                forall|k: int| 0 <= k < n ==> fits(#[trigger] candidates@[k]),
                forall|k: int|
                    0 <= k < n ==> MIN_SIZE <= (#[trigger] candidates@[k]).x2 - candidates@[k].x1 < MAX_SIZE
                        && MIN_SIZE <= candidates@[k].y2 - candidates@[k].y1 < MAX_SIZE,
            decreases MAX_ROOMS - n,
        {
            let w = rng_range(rng, MIN_SIZE, MAX_SIZE);
            let h = rng_range(rng, MIN_SIZE, MAX_SIZE);
            let x = rng_range(rng, 1, MAPWIDTH - w) - 1;
            let y = rng_range(rng, 1, MAPHEIGHT - h) - 1;
            candidates.push(Rect::new(x, y, w, h));
            n = n + 1;
        }
        assert(fits(candidates@[0]));
        let r = GameMap::from_room_candidates(&candidates);
        proof {
            lemma_accepted_len(candidates@, candidates@.len() as int);
        }
        r.unwrap()
    }

    pub fn xy_idx(x: i32, y: i32) -> (r: usize)
        requires
            in_bounds(x as int, y as int),
        ensures
            r as int == idx_of(x as int, y as int),
            r < MAPCOUNT,
    {
        xy_idx(x, y)
    }

    /// Places each candidate that fits the grid and touches no room accepted before it,
    /// joining each accepted room to the one accepted before it by a corridor that runs
    /// along the earlier centre's row, then along the new centre's column.
    /// `None` when no candidate fits.
    #[verifier::rlimit(80)]
    pub fn from_room_candidates(candidates: &Vec<Rect>) -> (r: Option<GameMap>)
        ensures
            r.is_some() <==> exists|i: int| 0 <= i < candidates@.len() && fits(#[trigger] candidates@[i]),
            r.is_some() ==> {
                let m = r.unwrap();
                &&& m.wf()
                &&& m.rooms@ == accepted_rooms(candidates@, candidates@.len() as int)
                &&& forall|a: int, b: int| #[trigger] in_bounds(a, b) ==> (is_floor(m.tiles@, a, b) <==> carved(m.rooms@, a, b))
                &&& forall|k: int| 0 <= k < m.rooms@.len() ==> exists|i: int|
                    0 <= i < candidates@.len() && #[trigger] m.rooms@[k] == candidates@[i]
                &&& forall|k1: int, k2: int|
                    0 <= k1 < m.rooms@.len() && 0 <= k2 < m.rooms@.len() && k1 != k2
                        ==> !(#[trigger] m.rooms@[k1]).spec_intersect(#[trigger] m.rooms@[k2])
                &&& forall|k: int, a: int, b: int|
                    0 <= k < m.rooms@.len() && #[trigger] m.rooms@[k].interior_contains(a, b)
                        ==> is_floor(m.tiles@, a, b)
                &&& forall|i: int| 0 <= i < MAPCOUNT ==> !m.revealed_tiles@[i] && !m.visible_tiles@[i] && !m.blocked@[i]
                &&& forall|i: int| 0 <= i < MAPCOUNT ==> (#[trigger] m.tile_content@[i])@.len() == 0
            },
    {
        let mut tiles: Vec<TileType> = vec![TileType::Wall; MAPCOUNT];
        let mut rooms: Vec<Rect> = Vec::new();
        let mut i: usize = 0;
        while i < candidates.len()
            invariant
                i <= candidates@.len(),
                tiles@.len() == MAPCOUNT,
                rooms@.len() == 0 <==> forall|j: int| 0 <= j < i ==> !fits(#[trigger] candidates@[j]),
                rooms@ == accepted_rooms(candidates@, i as int),
                forall|a: int, b: int| #[trigger] in_bounds(a, b) ==> (is_floor(tiles@, a, b) <==> carved(rooms@, a, b)),
                rooms@.len() == 0 ==> forall|j: int| 0 <= j < MAPCOUNT ==> tiles@[j] == TileType::Wall,
                rooms@.len() > 0 ==> connected(tiles@, rooms@[0].spec_center().0, rooms@[0].spec_center().1),
                forall|k: int| 0 <= k < rooms@.len() ==> fits(#[trigger] rooms@[k]),
                forall|k: int| 0 <= k < rooms@.len() ==> exists|j: int|
                    0 <= j < candidates@.len() && #[trigger] rooms@[k] == candidates@[j],
                forall|k1: int, k2: int|
                    0 <= k1 < rooms@.len() && 0 <= k2 < rooms@.len() && k1 != k2
                        ==> !(#[trigger] rooms@[k1]).spec_intersect(#[trigger] rooms@[k2]),
                forall|k: int, a: int, b: int|
                    0 <= k < rooms@.len() && #[trigger] rooms@[k].interior_contains(a, b) ==> is_floor(tiles@, a, b),
            decreases candidates@.len() - i,
        {
            let c = candidates[i];
            let mut ok = c.x1 >= 0 && c.x1 as i64 + 2 <= c.x2 as i64 && c.x2 < MAPWIDTH - 1
                && c.y1 >= 0 && c.y1 as i64 + 2 <= c.y2 as i64 && c.y2 < MAPHEIGHT - 1;
            let mut j: usize = 0;
            while j < rooms.len()
                invariant
                    j <= rooms@.len(),
                    ok ==> fits(c),
                    rooms@.len() == 0 ==> (ok == fits(c)),
                    ok == (fits(c) && forall|k: int| 0 <= k < j ==> !c.spec_intersect(#[trigger] rooms@[k])),
                    ok ==> forall|k: int| 0 <= k < j ==> !c.spec_intersect(#[trigger] rooms@[k]),
                decreases rooms@.len() - j,
            {
                if c.intersect(&rooms[j]) {
                    ok = false;
                }
                j = j + 1;
            }
            if ok {
                let ghost old_tiles = tiles@;
                let ghost old_rooms = rooms@;
                let (nx, ny) = c.center();
                assert(c.interior_contains(nx as int, ny as int));
                let ghost sx: int;
                let ghost sy: int;
                if rooms.len() == 0 {
                    let ni = xy_idx(nx, ny);
                    tiles.set(ni, TileType::Floor);
                    assert(is_floor(tiles@, nx as int, ny as int));
                    assert forall|a: int, b: int| #[trigger] in_bounds(a, b) implies (is_floor(tiles@, a, b) <==> (is_floor(old_tiles, a, b) || (a == nx && b == ny))) by {
                        if idx_of(a, b) == idx_of(nx as int, ny as int) {
                            lemma_idx_injective(a, b, nx as int, ny as int);
                        }
                    }
                    proof {
                        sx = nx as int;
                        sy = ny as int;
                        assert forall|a: int, b: int| #[trigger] is_floor(tiles@, a, b) implies a == sx && b == sy by {
                            if idx_of(a, b) != idx_of(sx, sy) {
                                assert(tiles@[idx_of(a, b)] == TileType::Wall);
                            }
                            lemma_idx_injective(a, b, sx, sy);
                        }
                        let parent = |a: int, b: int| (a, b);
                        let dist = |a: int, b: int| 0nat;
                        assert(descent(tiles@, sx, sy, parent, dist));
                    }
                } else {
                    proof {
                        sx = rooms@[0].spec_center().0;
                        sy = rooms@[0].spec_center().1;
                    }
                    let last = rooms.len() - 1;
                    let (px, py) = rooms[last].center();
                    assert(fits(rooms@[last as int]));
                    assert(rooms@[last as int].interior_contains(px as int, py as int));
                    carve_h(&mut tiles, px, nx, py, Ghost(sx), Ghost(sy));
                    let ghost mid_tiles = tiles@;
                    assert(between(px as int, nx as int, nx as int));
                    carve_v(&mut tiles, nx, py, ny, Ghost(sx), Ghost(sy));
                    assert forall|a: int, b: int| #[trigger] in_bounds(a, b) implies (is_floor(tiles@, a, b) <==> (is_floor(old_tiles, a, b)
                        || on_corridor(old_rooms[old_rooms.len() - 1], c, a, b))) by {
                        if on_corridor(old_rooms[old_rooms.len() - 1], c, a, b) {
                            if b == py && between(px as int, a, nx as int) {
                                assert(is_floor(mid_tiles, a, b));
                                assert(0 <= idx_of(a, b) < MAPCOUNT);
                            }
                        }
                    }
                    assert(between(py as int, ny as int, ny as int));
                    assert(is_floor(tiles@, nx as int, ny as int));
                }
                let ghost before_room = tiles@;
                carve_room(&mut tiles, &c, Ghost(sx), Ghost(sy));
                rooms.push(c);
                proof {
                    lemma_push_room_carved(old_tiles, before_room, tiles@, old_rooms, c);
                    assert(rooms@ == old_rooms.push(c));
                    assert(rooms@[rooms@.len() - 1] == candidates@[i as int]);
                    assert forall|k: int| 0 <= k < rooms@.len() implies exists|j: int|
                        0 <= j < candidates@.len() && #[trigger] rooms@[k] == candidates@[j] by {
                        if k < old_rooms.len() {
                            assert(rooms@[k] == old_rooms[k]);
                        } else {
                            assert(rooms@[k] == candidates@[i as int]);
                        }
                    }
                    assert forall|k: int, a: int, b: int|
                        0 <= k < rooms@.len() && #[trigger] rooms@[k].interior_contains(a, b) implies is_floor(tiles@, a, b) by {
                        if k < old_rooms.len() {
                            assert(rooms@[k] == old_rooms[k]);
                            assert(is_floor(old_tiles, a, b));
                            assert(0 <= idx_of(a, b) < MAPCOUNT);
                            assert(before_room[idx_of(a, b)] == TileType::Floor);
                        }
                    }
                    assert forall|k: int| 0 <= k < rooms@.len() implies fits(#[trigger] rooms@[k]) by {
                        if k < old_rooms.len() {
                            assert(rooms@[k] == old_rooms[k]);
                        }
                    }
                    assert forall|k1: int, k2: int|
                        0 <= k1 < rooms@.len() && 0 <= k2 < rooms@.len() && k1 != k2
                            implies !(#[trigger] rooms@[k1]).spec_intersect(#[trigger] rooms@[k2]) by {
                        if k1 < old_rooms.len() {
                            assert(rooms@[k1] == old_rooms[k1]);
                        }
                        if k2 < old_rooms.len() {
                            assert(rooms@[k2] == old_rooms[k2]);
                        }
                    }
                    assert(rooms@[0].spec_center() == (sx, sy));
                }
            }
            i = i + 1;
        }
        if rooms.len() == 0 {
            return None;
        }
        let mut tile_content: Vec<Vec<usize>> = Vec::new();
        let mut n: usize = 0;
        while n < MAPCOUNT
            invariant
                n <= MAPCOUNT,
                tile_content@.len() == n,
                forall|i: int| 0 <= i < n ==> (#[trigger] tile_content@[i])@.len() == 0,
            decreases MAPCOUNT - n,
        {
            tile_content.push(Vec::new());
            n = n + 1;
        }
        Some(GameMap {
            tiles,
            rooms,
            revealed_tiles: vec![false; MAPCOUNT],
            visible_tiles: vec![false; MAPCOUNT],
            blocked: vec![false; MAPCOUNT],
            tile_content,
        })
    }
}

/// Every floor tile of a generated map can be walked to, over floor tiles, from the
/// centre of its first room, where the player spawns.
pub proof fn lemma_floor_reachable_from_spawn(m: &GameMap, x: int, y: int)
    requires
        m.wf(),
        is_floor(m.tiles@, x, y),
    ensures
        exists|path: Seq<(int, int)>|
            is_floor_path(m.tiles@, path) && path[0] == (x, y) && path.last() == m.spawn(),
{
    lemma_connected_paths(m.tiles@, m.spawn().0, m.spawn().1, x, y);
}

} // verus!
