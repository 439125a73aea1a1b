use vstd::prelude::*;
use crate::components::{Entity, EntityView, Position, WantsToDrinkPotion, WantsToDropItem};
use crate::world::{is_dead, no_intents, pass_applied, pass_map_applied, pass_result, World};

verus! {

/// The turn controller's states.
#[derive(Clone, Copy, Debug, PartialEq, Eq, Structural)]
pub enum RunState {
    AwaitingInput,
    PreRun,
    PlayerTurn,
    MonsterTurn,
    ShowInventory,
    ShowDropItem,
}

/// What an item menu resolved to.
#[derive(Clone, Copy, Debug, PartialEq, Eq, Structural)]
pub enum ItemMenuResult {
    Cancel,
    NoResponse,
    Selected(Entity),
}

/// What the input collaborator reports for one frame: the state a command resolved to
/// while awaiting input, or the outcome of an open menu.
#[derive(Clone, Copy, Debug, PartialEq, Eq, Structural)]
pub enum TickEvent {
    Idle,
    Input(RunState),
    Menu(ItemMenuResult),
}

/// States in which a frame runs the system pipeline.
pub open spec fn runs_pipeline(s: RunState) -> bool {
    s == RunState::PreRun || s == RunState::PlayerTurn || s == RunState::MonsterTurn
}

/// The state after one frame.
pub open spec fn next_run_state(s: RunState, ev: TickEvent) -> RunState {
    match s {
        RunState::PreRun => RunState::AwaitingInput,
        RunState::PlayerTurn => RunState::MonsterTurn,
        RunState::MonsterTurn => RunState::AwaitingInput,
        RunState::AwaitingInput => match ev {
            TickEvent::Input(n) => if n == RunState::AwaitingInput || n == RunState::PlayerTurn || n
                == RunState::ShowInventory || n == RunState::ShowDropItem {
                n
            } else {
                RunState::AwaitingInput
            },
            _ => RunState::AwaitingInput,
        },
        RunState::ShowInventory | RunState::ShowDropItem => match ev {
            TickEvent::Menu(ItemMenuResult::Cancel) => RunState::AwaitingInput,
            TickEvent::Menu(ItemMenuResult::Selected(_)) => RunState::PlayerTurn,
            _ => s,
        },
    }
}

/// Computes the state after one frame.
pub fn next_state(s: RunState, ev: TickEvent) -> (r: RunState)
    ensures
        r == next_run_state(s, ev),
{
    match s {
        RunState::PreRun => RunState::AwaitingInput,
        RunState::PlayerTurn => RunState::MonsterTurn,
        RunState::MonsterTurn => RunState::AwaitingInput,
        RunState::AwaitingInput => match ev {
            TickEvent::Input(n) => match n {
                RunState::AwaitingInput | RunState::PlayerTurn | RunState::ShowInventory | RunState::ShowDropItem => n,
                _ => RunState::AwaitingInput,
            },
            _ => RunState::AwaitingInput,
        },
        RunState::ShowInventory | RunState::ShowDropItem => match ev {
            TickEvent::Menu(ItemMenuResult::Cancel) => RunState::AwaitingInput,
            TickEvent::Menu(ItemMenuResult::Selected(_)) => RunState::PlayerTurn,
            _ => s,
        },
    }
}

/// `ents` after the death sweep: buffered deletions and every dead entity but the player
/// become free slots.
pub open spec fn swept(ents: Seq<EntityView>, pending: Seq<Entity>, player: Entity) -> Seq<EntityView> {
    Seq::new(
        ents.len(),
        |i: int|
            if pending.contains(i as usize) || (is_dead(ents[i]) && i != player) {
                EntityView::empty()
            } else {
                ents[i]
            },
    )
}

/// The entities a frame hands to the death sweep: the pass result in pipeline states; with
/// a confirmed menu choice, the player's new intent; else the entities as they were.
pub open spec fn tick_entities(o: State, ev: TickEvent, fovs: Seq<Vec<Position>>) -> Seq<EntityView> {
    let p = o.ecs.player as int;
    let ents = o.ecs.ents();
    if runs_pipeline(o.run_state) {
        pass_result(o.ecs, fovs)
    } else if p < ents.len() {
        match ev {
            TickEvent::Menu(ItemMenuResult::Selected(item)) => if o.run_state == RunState::ShowInventory {
                ents.update(p, EntityView { wants_drink: Some(WantsToDrinkPotion { potion: item }), ..ents[p] })
            } else if o.run_state == RunState::ShowDropItem {
                ents.update(p, EntityView { wants_drop: Some(WantsToDropItem { item }), ..ents[p] })
            } else {
                ents
            },
            _ => ents,
        }
    } else {
        ents
    }
}

/// The deletions buffered when the death sweep runs.
pub open spec fn tick_pending(o: State) -> Seq<Entity> {
    if runs_pipeline(o.run_state) {
        seq![]
    } else {
        o.ecs.pending_deletes@
    }
}

/// The game: its world and the turn controller's state.
pub struct State {
    pub ecs: World,
    pub run_state: RunState,
}

impl State {
    pub open spec fn wf(&self) -> bool {
        self.ecs.wf()
    }

    /// One pass of the system pipeline over the world, with the fields of view `fovs`
    /// computed for the entities whose viewshed is dirty.
    pub fn run_systems(&mut self, fovs: &Vec<Vec<Position>>)
        requires
            old(self).wf(),
        ensures
            final(self).wf(),
            final(self).run_state == old(self).run_state,
            pass_applied(old(self).ecs, fovs@, final(self).ecs),
            final(self).ecs.ents().len() == old(self).ecs.ents().len(),
            forall|i: int| 0 <= i < final(self).ecs.ents().len() ==> no_intents(#[trigger] final(self).ecs.ents()[i]),
    {
        self.ecs.run_systems(fovs);
    }

    /// Advances one frame: runs the pipeline in `PreRun`, `PlayerTurn` and `MonsterTurn`;
    /// a confirmed menu choice gives the player the matching intent; then the dead are
    /// swept. Returns whether the player is dead.
    pub fn tick(&mut self, ev: TickEvent, fovs: &Vec<Vec<Position>>) -> (player_dead: bool)
        requires
            old(self).wf(),
        ensures
            final(self).wf(),
            final(self).run_state == next_run_state(old(self).run_state, ev),
            final(self).ecs.player == old(self).ecs.player,
            final(self).ecs.pending_deletes@.len() == 0,
            final(self).ecs.ents().len() == old(self).ecs.ents().len(),
            final(self).ecs.ents() == swept(tick_entities(*old(self), ev, fovs@), tick_pending(*old(self)), old(self).ecs.player),
            player_dead == (old(self).ecs.player < old(self).ecs.ents().len() && is_dead(
                tick_entities(*old(self), ev, fovs@)[old(self).ecs.player as int],
            )),
            final(self).ecs.map.tiles == old(self).ecs.map.tiles,
            final(self).ecs.map.rooms == old(self).ecs.map.rooms,
            !runs_pipeline(old(self).run_state) ==> final(self).ecs.map == old(self).ecs.map && final(self).ecs.log
                == old(self).ecs.log,
            runs_pipeline(old(self).run_state) ==> pass_map_applied(old(self).ecs, fovs@, final(self).ecs),
            runs_pipeline(old(self).run_state) ==> forall|i: int|
                0 <= i < final(self).ecs.ents().len() ==> no_intents(#[trigger] final(self).ecs.ents()[i]),
    {
        let s = self.run_state;
        let next = next_state(s, ev);
        match s {
            RunState::PreRun | RunState::PlayerTurn | RunState::MonsterTurn => {
                self.ecs.run_systems(fovs);
            },
            RunState::ShowInventory | RunState::ShowDropItem => {
                if let TickEvent::Menu(ItemMenuResult::Selected(item)) = ev {
                    let p = self.ecs.player;
                    if p < self.ecs.entities.len() {
                        if s == RunState::ShowInventory {
                            self.ecs.entities[p].wants_drink = Some(WantsToDrinkPotion { potion: item });
                        } else {
                            self.ecs.entities[p].wants_drop = Some(WantsToDropItem { item });
                        }
                    }
                }
            },
            RunState::AwaitingInput => {},
        }
        let ghost after_pass = self.ecs;
        let ghost before = self.ecs.ents();
        let ghost pending = self.ecs.pending_deletes@;
        assert(pending =~= tick_pending(*old(self)));
        assert(before =~= tick_entities(*old(self), ev, fovs@));
        self.run_state = next;
        let player_dead = self.ecs.delete_the_dead();
        proof {
            assert(self.ecs.ents() =~= swept(before, pending, self.ecs.player));
            if runs_pipeline(s) {
                assert(pass_map_applied(old(self).ecs, fovs@, after_pass));
                assert(self.ecs.map == after_pass.map && self.ecs.log == after_pass.log);
                assert(self.ecs.wf());
                assert(pass_map_applied(old(self).ecs, fovs@, self.ecs));
            }
            if runs_pipeline(s) {
                assert forall|i: int| 0 <= i < self.ecs.ents().len() implies no_intents(#[trigger] self.ecs.ents()[i]) by {
                    assert(no_intents(before[i]));
                }
            }
        }
        player_dead
    }
}

} // verus!
