//! Replaying one recorded execution, event by event.

use crate::config::Config;
use crate::event::{Event, ThreadId};
use vstd::prelude::*;

verus! {

/// Where a replay stands.
pub struct ReplayInformation {
    /// The events of the recorded execution, in an order in which they can run.
    pub order: Vec<Event>,
    /// How many of them were handed out.
    pub at: usize,
    /// The event that was handed out and has not run yet.
    pub current: Option<Event>,
    pub replay_mode: bool,
    pub error_found: bool,
    /// The settings of the recorded execution.
    pub config: Config,
}

/// Where a replay stands, as the contracts see it.
pub struct ReplayView {
    pub order: Seq<Event>,
    pub at: usize,
    pub current: Option<Event>,
    pub replay_mode: bool,
    pub error_found: bool,
    pub config: Config,
}

impl View for ReplayInformation {
    type V = ReplayView;

    open spec fn view(&self) -> ReplayView {
        ReplayView {
            order: self.order@,
            at: self.at,
            current: self.current,
            replay_mode: self.replay_mode,
            error_found: self.error_found,
            config: self.config,
        }
    }
}

/// Whether the event `pos` may run where the replay stands.
pub open spec fn consumable(r: ReplayView, pos: Event) -> bool {
    !r.replay_mode || r.current is None || r.current == Some(pos)
}

/// Where the replay stands after the event that was handed out has run.
pub open spec fn consumed(r: ReplayView) -> ReplayView {
    if r.replay_mode {
        ReplayView { current: None, ..r }
    } else {
        r
    }
}

/// An event ran that is not the one the recorded execution has next.
#[derive(Clone, Copy, Debug, PartialEq, Eq, Structural)]
pub struct ReplayFailure {
    pub executing: Event,
    pub expected: Event,
}

impl ReplayInformation {
    /// No recorded execution.
    pub fn new(config: Config, replay_mode: bool) -> (r: Self)
        ensures
            r@ == (ReplayView {
                order: Seq::empty(),
                at: 0,
                current: None,
                replay_mode,
                error_found: false,
                config,
            }),
    {
        let r = ReplayInformation {
            order: Vec::new(),
            at: 0,
            current: None,
            replay_mode,
            error_found: false,
            config,
        };
        assert(r.order@ =~= Seq::<Event>::empty());
        r
    }

    /// A recorded execution, from its start.
    pub fn create(order: Vec<Event>, config: Config) -> (r: Self)
        ensures
            r@ == (ReplayView {
                order: order@,
                at: 0,
                current: None,
                replay_mode: true,
                error_found: true,
                config,
            }),
    {
        ReplayInformation {
            order,
            at: 0,
            current: None,
            replay_mode: true,
            error_found: true,
            config,
        }
    }

    /// The settings of the recorded execution.
    pub fn config(&self) -> (c: Config)
        ensures
            c == self@.config,
    {
        self.config
    }

    /// Hands out the next event; returns the thread that has to run.
    pub fn next_task(&mut self) -> (t: Option<ThreadId>)
        ensures
            old(self)@.at < old(self)@.order.len() ==> t == Some(
                old(self)@.order[old(self)@.at as int].thread,
            ) && final(self)@ == (ReplayView {
                at: (old(self)@.at + 1) as usize,
                current: Some(old(self)@.order[old(self)@.at as int]),
                ..old(self)@
            }),
            old(self)@.at >= old(self)@.order.len() ==> t is None && final(self)@ == old(self)@,
    {
        if self.at < self.order.len() {
            let e = self.order[self.at];
            self.at = self.at + 1;
            self.current = Some(e);
            Some(e.thread)
        } else {
            None
        }
    }

    /// Takes note that the event `pos` runs. It has to be the one handed out last.
    pub fn consume(&mut self, pos: Event) -> (r: Result<(), ReplayFailure>)
        ensures
            r is Ok == consumable(old(self)@, pos),
            r is Ok ==> final(self)@ == consumed(old(self)@),
            r matches Err(f) ==> final(self)@ == old(self)@ && f.executing == pos
                && old(self)@.current == Some(f.expected),
    {
        if self.replay_mode {
            if let Some(expected) = self.current {
                if expected != pos {
                    return Err(ReplayFailure { executing: pos, expected });
                }
                self.current = None;
            }
        }
        Ok(())
    }
}

} // verus!
