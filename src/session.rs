//! The decisions of the server's loops. The caller performs the I/O: it reads
//! from a connection or accepts on the listener, hands the outcome to these
//! functions, and carries out the action they return.
use vstd::prelude::*;
use crate::codec::{decode_request, encode_response, parse_request, response_bytes};
use crate::message::{answer, dispatch};

verus! {

/// The outcome of one read on a connection.
#[derive(Clone, Debug, PartialEq, Eq)]
pub enum ReadEvent {
    /// Bytes arrived; they are taken to hold one whole message.
    Data(Vec<u8>),
    /// Nothing to read yet.
    NotReady,
    /// The peer closed the connection in order.
    Closed,
    /// The read failed.
    Failed,
}

/// A read outcome with the bytes as a sequence.
pub enum EventModel {
    Data(Seq<u8>),
    NotReady,
    Closed,
    Failed,
}

impl View for ReadEvent {
    type V = EventModel;

    open spec fn view(&self) -> EventModel {
        match self {
            ReadEvent::Data(b) => EventModel::Data(b@),
            ReadEvent::NotReady => EventModel::NotReady,
            ReadEvent::Closed => EventModel::Closed,
            ReadEvent::Failed => EventModel::Failed,
        }
    }
}

/// What the connection handler does next.
#[derive(Clone, Debug, PartialEq, Eq)]
pub enum Action {
    /// Write these bytes, flush, and read again.
    Reply(Vec<u8>),
    /// The message was malformed or asked nothing: send nothing, read again.
    Discard,
    /// Wait briefly, then read again.
    Wait,
    /// Stop serving: shut the connection down in both directions.
    Finish,
    /// Stop serving because the read failed: report it, then shut down.
    Abort,
}

/// An action with the bytes of a reply as a sequence.
pub enum ActionModel {
    Reply(Seq<u8>),
    Discard,
    Wait,
    Finish,
    Abort,
}

impl View for Action {
    type V = ActionModel;

    open spec fn view(&self) -> ActionModel {
        match self {
            Action::Reply(b) => ActionModel::Reply(b@),
            Action::Discard => ActionModel::Discard,
            Action::Wait => ActionModel::Wait,
            Action::Finish => ActionModel::Finish,
            Action::Abort => ActionModel::Abort,
        }
    }
}

/// The reply owed to the bytes of one message: the encoded response, or
/// `None` where they are malformed or ask nothing.
pub open spec fn reply_to(b: Seq<u8>) -> Option<Seq<u8>> {
    match parse_request(b) {
        Some(q) => match answer(q) {
            Some(a) => Some(response_bytes(a)),
            None => None,
        },
        None => None,
    }
}

/// Decodes one message, answers it and encodes the answer.
pub fn respond(b: &[u8]) -> (r: Option<Vec<u8>>)
    ensures
        match reply_to(b@) {
            Some(out) => r matches Some(v) && v@ == out,
            None => r is None,
        },
{
    match decode_request(b) {
        Some(q) => match dispatch(&q) {
            Some(a) => Some(encode_response(&a)),
            None => None,
        },
        None => None,
    }
}

/// Whether a handler that is `open` stays open after `ev`, with the server `running`.
pub open spec fn stays_open(open: bool, running: bool, ev: EventModel) -> bool {
    open && running && (ev is Data || ev is NotReady)
}

/// The action of a handler that is `open` on `ev`, with the server `running`.
pub open spec fn next_action(open: bool, running: bool, ev: EventModel) -> ActionModel {
    if !open || !running {
        ActionModel::Finish
    } else {
        match ev {
            EventModel::Data(b) => match reply_to(b) {
                Some(out) => ActionModel::Reply(out),
                None => ActionModel::Discard,
            },
            EventModel::NotReady => ActionModel::Wait,
            EventModel::Closed => ActionModel::Finish,
            EventModel::Failed => ActionModel::Abort,
        }
    }
}

/// The replies that a handler sends over a run of read outcomes.
pub open spec fn replies(open: bool, running: bool, evs: Seq<EventModel>) -> Seq<Seq<u8>>
    decreases evs.len(),
{
    if evs.len() == 0 {
        seq![]
    } else {
        let head = match next_action(open, running, evs[0]) {
            ActionModel::Reply(out) => seq![out],
            _ => seq![],
        };
        head + replies(stays_open(open, running, evs[0]), running, evs.drop_first())
    }
}

/// The handler of one accepted connection.
pub struct Client {
    open: bool,
}

impl Client {
    /// Whether the handler still serves its connection.
    pub closed spec fn is_open(&self) -> bool {
        self.open
    }

    /// A handler for a freshly accepted connection.
    pub fn new() -> (r: Client)
        ensures
            r.is_open(),
    {
        Client { open: true }
    }

    /// Decides what to do with the outcome of one read. Once the handler has
    /// finished, it stays finished and sends nothing more.
    pub fn handle(&mut self, running: bool, ev: ReadEvent) -> (r: Action)
        ensures
            r@ == next_action(old(self).is_open(), running, ev@),
            final(self).is_open() == stays_open(old(self).is_open(), running, ev@),
    {
        if !self.open || !running {
            self.open = false;
            return Action::Finish;
        }
        match ev {
            ReadEvent::Data(b) => match respond(b.as_slice()) {
                Some(out) => Action::Reply(out),
                None => Action::Discard,
            },
            ReadEvent::NotReady => Action::Wait,
            ReadEvent::Closed => {
                self.open = false;
                Action::Finish
            },
            ReadEvent::Failed => {
                self.open = false;
                Action::Abort
            },
        }
    }
}

} // verus!
