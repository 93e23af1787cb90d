//! The listener loop's decisions and the shutdown coordinator: a running flag
//! and the registry of handler tasks that a stop must wait for.
use vstd::prelude::*;

verus! {

/// The outcome of one accept on the listener.
#[derive(Clone, Copy, Debug, PartialEq, Eq)]
pub enum AcceptEvent {
    /// A connection was accepted.
    Accepted,
    /// No connection is waiting.
    NotReady,
    /// The accept failed.
    Failed,
}

/// What the listener loop does next.
#[derive(PartialEq, Eq, Structural, Debug, Clone, Copy)]
pub enum ListenerAction {
    /// Start a handler for the new connection, register it, accept again.
    Spawn,
    /// Wait briefly, then accept again.
    Wait,
    /// Report the failure and accept again; it is not fatal.
    Retry,
    /// Leave the loop: the server was stopped.
    Exit,
}

/// The listener's decision on one accept outcome while the flag reads `running`.
pub open spec fn listener_action(running: bool, ev: AcceptEvent) -> ListenerAction {
    if !running {
        ListenerAction::Exit
    } else {
        match ev {
            AcceptEvent::Accepted => ListenerAction::Spawn,
            AcceptEvent::NotReady => ListenerAction::Wait,
            AcceptEvent::Failed => ListenerAction::Retry,
        }
    }
}

/// Decides what the listener does with the outcome of one accept.
pub fn on_accept(running: bool, ev: AcceptEvent) -> (r: ListenerAction)
    ensures
        r == listener_action(running, ev),
{
    if !running {
        return ListenerAction::Exit;
    }
    match ev {
        AcceptEvent::Accepted => ListenerAction::Spawn,
        AcceptEvent::NotReady => ListenerAction::Wait,
        AcceptEvent::Failed => ListenerAction::Retry,
    }
}

/// The running flag and the handles of the handler tasks spawned since the
/// last stop, in the order they were spawned.
pub struct Coordinator<H> {
    running: bool,
    tasks: Vec<H>,
}

/// What a coordinator holds: the flag and the registered handles.
pub struct CoordinatorModel<H> {
    pub running: bool,
    pub tasks: Seq<H>,
}

/// The coordinator after a stop, and the handles that the stop hands out to
/// be joined: none, and nothing changed, where it was not running.
pub open spec fn stopped<H>(m: CoordinatorModel<H>) -> (CoordinatorModel<H>, Option<Seq<H>>) {
    if m.running {
        (CoordinatorModel { running: false, tasks: Seq::empty() }, Some(m.tasks))
    } else {
        (m, None)
    }
}

impl<H> View for Coordinator<H> {
    type V = CoordinatorModel<H>;

    closed spec fn view(&self) -> CoordinatorModel<H> {
        CoordinatorModel { running: self.running, tasks: self.tasks@ }
    }
}

impl<H> Coordinator<H> {
    /// A coordinator that has not run: the flag is down, no task is registered.
    pub fn new() -> (r: Coordinator<H>)
        ensures
            r@ == (CoordinatorModel { running: false, tasks: Seq::<H>::empty() }),
    {
        Coordinator { running: false, tasks: Vec::new() }
    }

    /// Raises the flag as the listener loop starts.
    pub fn start(&mut self)
        ensures
            final(self)@ == (CoordinatorModel { running: true, tasks: old(self)@.tasks }),
    {
        self.running = true;
    }

    /// The flag that every loop reads between iterations.
    pub fn is_running(&self) -> (r: bool)
        ensures
            r == self@.running,
    {
        self.running
    }

    /// Registers the handle of a newly spawned handler task.
    pub fn register(&mut self, h: H)
        ensures
            final(self)@ == (CoordinatorModel {
                running: old(self)@.running,
                tasks: old(self)@.tasks.push(h),
            }),
    {
        self.tasks.push(h);
    }

    /// Lowers the flag and hands out every registered handle, leaving the
    /// registry empty; where the flag is already down, does nothing and
    /// returns `None`.
    pub fn stop(&mut self) -> (r: Option<Vec<H>>)
        ensures
            final(self)@ == stopped(old(self)@).0,
            match stopped(old(self)@).1 {
                Some(hs) => r matches Some(v) && v@ == hs,
                None => r is None,
            },
    {
        if !self.running {
            return None;
        }
        self.running = false;
        let mut drained: Vec<H> = Vec::new();
        std::mem::swap(&mut drained, &mut self.tasks);
        Some(drained)
    }
}

} // verus!
