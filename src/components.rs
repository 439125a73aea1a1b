use vstd::prelude::*;

verus! {

/// An entity is an index into the world's records; a deleted slot may be handed out again.
pub type Entity = usize;

#[derive(Clone, Copy, Debug, PartialEq, Eq, Structural)]
pub struct Position {
    pub x: i32,
    pub y: i32,
}

/// What the renderer draws for an entity: a glyph, packed RGB colours and a draw order.
#[derive(Clone, Copy, Debug, PartialEq, Eq, Structural)]
pub struct Renderable {
    pub glyph: u16,
    pub fg: u32,
    pub bg: u32,
    pub render_order: i32,
}

pub struct Viewshed {
    pub visible_tiles: Vec<Position>,
    pub range: i32,
    pub dirty: bool,
}

#[derive(Clone, Copy, Debug, PartialEq, Eq, Structural)]
pub struct CombatStats {
    pub max_hp: i32,
    pub hp: i32,
    pub defense: i32,
    pub power: i32,
}

/// The two mutually exclusive role tags.
#[derive(Clone, Copy, Debug, PartialEq, Eq, Structural)]
pub enum Role {
    Player,
    Monster,
}

#[derive(Clone, Copy, Debug, PartialEq, Eq, Structural)]
pub struct Potion {
    pub heal_amount: i32,
}

#[derive(Clone, Copy, Debug, PartialEq, Eq, Structural)]
pub struct InBackpack {
    pub owner: Entity,
}

#[derive(Clone, Copy, Debug, PartialEq, Eq, Structural)]
pub struct WantsToMelee {
    pub target: Entity,
}

/// Damage waiting to be applied; several hits in one turn accumulate here.
pub struct SufferDamage {
    pub amount: Vec<i64>,
}

#[derive(Clone, Copy, Debug, PartialEq, Eq, Structural)]
pub struct WantsToPickupItem {
    pub collected_by: Entity,
    pub item: Entity,
}

#[derive(Clone, Copy, Debug, PartialEq, Eq, Structural)]
pub struct WantsToDrinkPotion {
    pub potion: Entity,
}

#[derive(Clone, Copy, Debug, PartialEq, Eq, Structural)]
pub struct WantsToDropItem {
    pub item: Entity,
}

/// The components of one entity; `alive` is false for a free slot.
pub struct EntityData {
    pub alive: bool,
    pub position: Option<Position>,
    pub renderable: Option<Renderable>,
    pub viewshed: Option<Viewshed>,
    pub stats: Option<CombatStats>,
    pub name: Option<String>,
    pub role: Option<Role>,
    pub blocks_tile: bool,
    pub item: bool,
    pub potion: Option<Potion>,
    pub in_backpack: Option<InBackpack>,
    pub wants_melee: Option<WantsToMelee>,
    pub suffer_damage: Option<SufferDamage>,
    pub wants_pickup: Option<WantsToPickupItem>,
    pub wants_drink: Option<WantsToDrinkPotion>,
    pub wants_drop: Option<WantsToDropItem>,
}

pub ghost struct ViewshedView {
    pub visible_tiles: Seq<Position>,
    pub range: i32,
    pub dirty: bool,
}

/// An entity's components with vectors and strings seen as sequences.
pub ghost struct EntityView {
    pub alive: bool,
    pub position: Option<Position>,
    pub renderable: Option<Renderable>,
    pub viewshed: Option<ViewshedView>,
    pub stats: Option<CombatStats>,
    pub name: Option<Seq<char>>,
    pub role: Option<Role>,
    pub blocks_tile: bool,
    pub item: bool,
    pub potion: Option<Potion>,
    pub in_backpack: Option<InBackpack>,
    pub wants_melee: Option<WantsToMelee>,
    pub suffer_damage: Option<Seq<i64>>,
    pub wants_pickup: Option<WantsToPickupItem>,
    pub wants_drink: Option<WantsToDrinkPotion>,
    pub wants_drop: Option<WantsToDropItem>,
}

impl View for Viewshed {
    type V = ViewshedView;

    open spec fn view(&self) -> ViewshedView {
        ViewshedView { visible_tiles: self.visible_tiles@, range: self.range, dirty: self.dirty }
    }
}

impl View for EntityData {
    type V = EntityView;

    open spec fn view(&self) -> EntityView {
        EntityView {
            alive: self.alive,
            position: self.position,
            renderable: self.renderable,
            viewshed: match self.viewshed {
                Some(v) => Some(v@),
                None => None,
            },
            stats: self.stats,
            name: match self.name {
                Some(n) => Some(n@),
                None => None,
            },
            role: self.role,
            blocks_tile: self.blocks_tile,
            item: self.item,
            potion: self.potion,
            in_backpack: self.in_backpack,
            wants_melee: self.wants_melee,
            suffer_damage: match self.suffer_damage {
                Some(s) => Some(s.amount@),
                None => None,
            },
            wants_pickup: self.wants_pickup,
            wants_drink: self.wants_drink,
            wants_drop: self.wants_drop,
        }
    }
}

impl EntityView {
    /// A free slot: not alive and without components.
    pub open spec fn empty() -> EntityView {
        EntityView {
            alive: false,
            position: None,
            renderable: None,
            viewshed: None,
            stats: None,
            name: None,
            role: None,
            blocks_tile: false,
            item: false,
            potion: None,
            in_backpack: None,
            wants_melee: None,
            suffer_damage: None,
            wants_pickup: None,
            wants_drink: None,
            wants_drop: None,
        }
    }
}

impl EntityData {
    /// A live entity with no components.
    pub fn new() -> (r: EntityData)
        ensures
            r@ == (EntityView { alive: true, ..EntityView::empty() }),
    {
        EntityData {
            alive: true,
            position: None,
            renderable: None,
            viewshed: None,
            stats: None,
            name: None,
            role: None,
            blocks_tile: false,
            item: false,
            potion: None,
            in_backpack: None,
            wants_melee: None,
            suffer_damage: None,
            wants_pickup: None,
            wants_drink: None,
            wants_drop: None,
        }
    }

    /// A free slot.
    pub fn empty() -> (r: EntityData)
        ensures
            r@ == EntityView::empty(),
    {
        let mut d = EntityData::new();
        d.alive = false;
        d
    }
}

} // verus!
