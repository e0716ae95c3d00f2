//! The decisions of the background flush: when to write the chain out, and
//! when a requested shutdown may let the process exit.

use vstd::prelude::*;

verus! {

/// What happened, as the flush tasks see it.
#[derive(Debug, PartialEq, Eq, Structural)]
pub enum FlushEvent {
    /// The periodic timer fired.
    Tick,
    /// A shutdown was asked for.
    ShutdownRequested,
    /// A flush that was asked for has been written out.
    FlushCompleted,
}

/// What the flush tasks are to do next.
#[derive(Debug, PartialEq, Eq, Structural)]
pub enum FlushAction {
    /// Write every block of the chain out.
    Flush,
    /// Nothing.
    Wait,
    /// Every flush asked for is written: the process may exit.
    Exit,
}

/// The state of the flush tasks: whether a shutdown was asked for, how many
/// flushes are asked for and not yet written, and whether exit was given.
pub struct FlushScheduler {
    pub shutting_down: bool,
    pub outstanding: u64,
    pub exited: bool,
}

/// An exit is only ever given after a shutdown was asked for and every flush
/// asked for has been written.
pub open spec fn exit_is_safe(s: FlushScheduler) -> bool {
    s.exited ==> s.shutting_down && s.outstanding == 0
}

impl FlushScheduler {
    /// A scheduler that is running and owes no flush.
    pub fn new() -> (r: FlushScheduler)
        ensures
            !r.shutting_down,
            r.outstanding == 0,
            !r.exited,
    {
        FlushScheduler { shutting_down: false, outstanding: 0, exited: false }
    }

    /// The next action on `event`. While running, each tick asks for a flush;
    /// a shutdown asks for one final flush and stops the ticks; once it is
    /// shutting down and no flush is owed, the process may exit, once.
    pub fn step(&mut self, event: FlushEvent) -> (r: FlushAction)
        requires
            exit_is_safe(*old(self)),
        ensures
            exit_is_safe(*final(self)),
            match event {
                FlushEvent::Tick => if !old(self).shutting_down && old(self).outstanding
                    < u64::MAX {
                    r == FlushAction::Flush && *final(self) == (FlushScheduler {
                        outstanding: (old(self).outstanding + 1) as u64,
                        ..*old(self)
                    })
                } else {
                    r == FlushAction::Wait && *final(self) == *old(self)
                },
                FlushEvent::ShutdownRequested => if !old(self).shutting_down && old(
                    self,
                ).outstanding < u64::MAX {
                    r == FlushAction::Flush && *final(self) == (FlushScheduler {
                        shutting_down: true,
                        outstanding: (old(self).outstanding + 1) as u64,
                        ..*old(self)
                    })
                } else if !old(self).shutting_down {
                    r == FlushAction::Wait && *final(self) == (FlushScheduler {
                        shutting_down: true,
                        ..*old(self)
                    })
                } else {
                    r == FlushAction::Wait && *final(self) == *old(self)
                },
                FlushEvent::FlushCompleted => {
                    let left = if old(self).outstanding > 0 {
                        (old(self).outstanding - 1) as u64
                    } else {
                        0u64
                    };
                    if old(self).shutting_down && left == 0 && !old(self).exited {
                        r == FlushAction::Exit && *final(self) == (FlushScheduler {
                            outstanding: 0,
                            exited: true,
                            ..*old(self)
                        })
                    } else {
                        r == FlushAction::Wait && *final(self) == (FlushScheduler {
                            outstanding: left,
                            ..*old(self)
                        })
                    }
                },
            },
    {
        match event {
            FlushEvent::Tick => {
                if !self.shutting_down && self.outstanding < u64::MAX {
                    self.outstanding = self.outstanding + 1;
                    FlushAction::Flush
                } else {
                    FlushAction::Wait
                }
            },
            FlushEvent::ShutdownRequested => {
                if self.shutting_down {
                    FlushAction::Wait
                } else if self.outstanding < u64::MAX {
                    self.shutting_down = true;
                    self.outstanding = self.outstanding + 1;
                    FlushAction::Flush
                } else {
                    self.shutting_down = true;
                    FlushAction::Wait
                }
            },
            FlushEvent::FlushCompleted => {
                if self.outstanding > 0 {
                    self.outstanding = self.outstanding - 1;
                }
                if self.shutting_down && self.outstanding == 0 && !self.exited {
                    self.exited = true;
                    FlushAction::Exit
                } else {
                    FlushAction::Wait
                }
            },
        }
    }
}

} // verus!
