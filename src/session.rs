//! The decisions of the background search loop: what each control message
//! does, and whether a time slice is spent searching or idle. The thread,
//! its channel and its sleeping are left to the caller.
use vstd::prelude::*;

use crate::game_state::GameState;
use crate::mcts::{capped_count, rollouts_at, MCTSContext, StateStats};

verus! {

/// A control message to the search loop.
pub enum Message {
    /// Stop the search loop.
    Stop,
    /// Clear the explored node cache.
    ClearCache,
    /// Set the active game state to work on.
    SetActiveState(GameState),
}

/// What the search loop does after a message.
#[derive(PartialEq, Eq, Structural, Debug)]
pub enum Reply {
    /// Leave the loop.
    Exit,
    /// Publish a snapshot of the active state now.
    Publish,
    /// Carry on.
    Continue,
}

/// The search context together with the position being searched.
pub struct SearchSession {
    context: MCTSContext,
    active: Option<GameState>,
}

impl SearchSession {
    /// The search context.
    pub closed spec fn ctx(self) -> MCTSContext {
        self.context
    }

    /// The position being searched, if any.
    pub closed spec fn active_state(self) -> Option<GameState> {
        self.active
    }

    /// The context is consistent and the active position well formed.
    pub open spec fn wf(self) -> bool {
        &&& self.ctx().wf()
        &&& self.active_state() is Some ==> self.active_state().unwrap().wf()
    }

    /// A session with an empty table and no active position.
    pub fn new(cache_size_limit: usize) -> (r: Self)
        ensures
            r.wf(),
            r.active_state() is None,
            r.ctx().table().dom() == Set::<GameState>::empty(),
            r.ctx().limit() == cache_size_limit,
    {
        SearchSession { context: MCTSContext::new(cache_size_limit), active: None }
    }

    /// Handles one control message: `Stop` ends the loop; `ClearCache`
    /// empties the table; `SetActiveState` switches to a position and asks
    /// for a snapshot at once, or is ignored when the position holds too many
    /// stones.
    pub fn handle(&mut self, message: Message) -> (r: Reply)
        requires
            old(self).wf(),
        ensures
            final(self).wf(),
            message is Stop ==> r == Reply::Exit && *final(self) == *old(self),
            message is ClearCache ==> {
                &&& r == Reply::Continue
                &&& final(self).ctx().table().dom() == Set::<GameState>::empty()
                &&& final(self).ctx().ply() == 0
                &&& final(self).active_state() == old(self).active_state()
            },
            message is SetActiveState ==> {
                let g = message->SetActiveState_0;
                &&& final(self).ctx() == old(self).ctx()
                &&& g.wf() ==> r == Reply::Publish && final(self).active_state() == Some(g)
                &&& !g.wf() ==> r == Reply::Continue && final(self).active_state()
                    == old(self).active_state()
            },
    {
        match message {
            Message::Stop => Reply::Exit,
            Message::ClearCache => {
                self.context.clear_cache();
                Reply::Continue
            },
            Message::SetActiveState(game_state) => {
                if game_state.is_well_formed() {
                    self.active = Some(game_state);
                    Reply::Publish
                } else {
                    Reply::Continue
                }
            },
        }
    }

    /// Spends one time slice: ponders the active position under the given
    /// cache limit and returns the number of samples, or returns `None` when
    /// there is no active position or its game is over (the caller idles).
    pub fn work(&mut self, slice: std::time::Duration, cache_size_limit: usize) -> (r: Option<usize>)
        requires
            old(self).wf(),
        ensures
            final(self).wf(),
            final(self).active_state() == old(self).active_state(),
            (old(self).active_state() is None || old(self).active_state().unwrap().is_over())
                ==> r is None && *final(self) == *old(self),
            (old(self).active_state() is Some && !old(self).active_state().unwrap().is_over())
                ==> {
                let g = old(self).active_state().unwrap();
                let (t0, t1) = (old(self).ctx().table(), final(self).ctx().table());
                &&& r is Some
                &&& r.unwrap() >= 1
                &&& final(self).ctx().limit() == cache_size_limit
                &&& final(self).ctx().ply() == if old(self).ctx().ply() < u32::MAX {
                    old(self).ctx().ply() + 1
                } else {
                    old(self).ctx().ply() as int
                }
                &&& g.legal_moves().len() >= 2 ==> t1.contains_key(g) && t1[g].last_visit_ply
                    == final(self).ctx().ply()
                &&& t0.len() <= cache_size_limit ==> forall|k: GameState| #[trigger]
                    t0.contains_key(k) ==> t1.contains_key(k)
                &&& g.legal_moves().len() >= 2 && t0.len() <= cache_size_limit ==> rollouts_at(t1, g)
                    == capped_count(rollouts_at(t0, g) + r.unwrap())
            },
    {
        match self.active {
            Some(game_state) => {
                if game_state.result().is_some() {
                    return None;
                }
                self.context.set_cache_size_limit(cache_size_limit);
                Some(self.context.ponder(&game_state, slice))
            },
            None => None,
        }
    }

    /// The active position and its statistics, if it has been searched.
    pub fn snapshot(&self) -> (r: Option<(GameState, &StateStats)>)
        ensures
            r is Some <==> (self.active_state() is Some && self.ctx().table().contains_key(
                self.active_state().unwrap(),
            )),
            r is Some ==> r.unwrap().0 == self.active_state().unwrap() && *r.unwrap().1
                == self.ctx().table()[self.active_state().unwrap()],
    {
        match self.active {
            Some(game_state) => match self.context.stats_for(&game_state) {
                Some(stats) => Some((game_state, stats)),
                None => None,
            },
            None => None,
        }
    }

    /// The position being searched, if any.
    pub fn active(&self) -> (r: Option<GameState>)
        ensures
            r == self.active_state(),
    {
        self.active
    }

    /// Returns the number of explored nodes currently in the cache.
    pub fn cache_size(&self) -> (r: usize)
        ensures
            r == self.ctx().table().len(),
    {
        self.context.cache_size()
    }
}

} // verus!
