//! What holds of the server's behaviour as a whole, over the contracts of
//! the codec, the dispatch rule, the connection handler and the coordinator.
use vstd::prelude::*;
use vstd::utf8::encode_utf8;
use crate::codec::{
    lemma_request_round_trip, lemma_response_round_trip, parse_response, request_bytes,
    response_bytes,
};
use crate::message::{wrapping_sum, RequestModel, ResponseModel};
use crate::session::{next_action, replies, reply_to, stays_open, ActionModel, EventModel};
use crate::shutdown::{listener_action, stopped, AcceptEvent, CoordinatorModel, ListenerAction};

verus! {

/// The largest number of bytes that a `String` can hold.
pub open spec fn string_limit() -> nat {
    0x7FFF_FFFF_FFFF_FFFF
}

/// An echo request with text `t` is answered with an echo of `t`, which the
/// client reads back as `t`.
pub proof fn law_echo_identity(t: Seq<char>)
    requires
        encode_utf8(t).len() <= string_limit(),
    ensures
        reply_to(request_bytes(RequestModel::Echo(t))) == Some(
            response_bytes(ResponseModel::Echo(t)),
        ),
        parse_response(response_bytes(ResponseModel::Echo(t))) == Some(ResponseModel::Echo(t)),
{
    lemma_request_round_trip(RequestModel::Echo(t));
    lemma_response_round_trip(ResponseModel::Echo(t));
}

/// An addition request is answered with the sum of its operands in 32-bit
/// two's complement: the true sum where it fits, else the sum less or plus 2^32.
pub proof fn law_add_wraps(a: i32, b: i32)
    ensures
        reply_to(request_bytes(RequestModel::Add(a, b))) == Some(
            response_bytes(ResponseModel::Sum(wrapping_sum(a, b))),
        ),
        parse_response(response_bytes(ResponseModel::Sum(wrapping_sum(a, b)))) == Some(
            ResponseModel::Sum(wrapping_sum(a, b)),
        ),
        i32::MIN <= a + b <= i32::MAX ==> wrapping_sum(a, b) == a + b,
        a + b > i32::MAX ==> wrapping_sum(a, b) == a + b - 0x1_0000_0000,
        a + b < i32::MIN ==> wrapping_sum(a, b) == a + b + 0x1_0000_0000,
{
    lemma_request_round_trip(RequestModel::Add(a, b));
    lemma_response_round_trip(ResponseModel::Sum(wrapping_sum(a, b)));
}

/// The read outcomes of a client that sends one echo request per text.
pub open spec fn echo_requests(texts: Seq<Seq<char>>) -> Seq<EventModel> {
    texts.map_values(|t: Seq<char>| EventModel::Data(request_bytes(RequestModel::Echo(t))))
}

/// The echo responses to those texts, in their order.
pub open spec fn echo_responses(texts: Seq<Seq<char>>) -> Seq<Seq<u8>> {
    texts.map_values(|t: Seq<char>| response_bytes(ResponseModel::Echo(t)))
}

/// A connection that receives one echo request after another sends exactly
/// one response for each, in the same order, each echoing its request.
pub proof fn law_sequential_echoes(texts: Seq<Seq<char>>)
    requires
        forall|i: int| 0 <= i < texts.len() ==> encode_utf8(#[trigger] texts[i]).len() <= string_limit(),
    ensures
        replies(true, true, echo_requests(texts)) == echo_responses(texts),
    decreases texts.len(),
{
    if texts.len() > 0 {
        let rest = texts.drop_first();
        law_echo_identity(texts[0]);
        assert forall|i: int| 0 <= i < rest.len() implies encode_utf8(#[trigger] rest[i]).len()
            <= string_limit() by {
            assert(rest[i] == texts[i + 1]);
        }
        law_sequential_echoes(rest);
        assert(echo_requests(texts).drop_first() =~= echo_requests(rest));
        assert(echo_responses(texts) =~= seq![response_bytes(ResponseModel::Echo(texts[0]))]
            + echo_responses(rest));
    } else {
        assert(echo_responses(texts) =~= Seq::<Seq<u8>>::empty());
    }
}

/// A handler that has finished sends nothing more, whatever it reads.
pub proof fn law_finished_is_silent(running: bool, evs: Seq<EventModel>)
    ensures
        replies(false, running, evs) == Seq::<Seq<u8>>::empty(),
    decreases evs.len(),
{
    if evs.len() > 0 {
        law_finished_is_silent(running, evs.drop_first());
        assert(replies(false, running, evs) =~= Seq::<Seq<u8>>::empty());
    }
}

/// Once the peer has disconnected, no response is sent on the connection
/// again, whatever arrives after.
pub proof fn law_silent_after_disconnect(open: bool, running: bool, rest: Seq<EventModel>)
    ensures
        replies(open, running, seq![EventModel::Closed] + rest) == Seq::<Seq<u8>>::empty(),
{
    let evs = seq![EventModel::Closed] + rest;
    assert(evs.drop_first() =~= rest);
    law_finished_is_silent(running, rest);
    assert(replies(open, running, evs) =~= Seq::<Seq<u8>>::empty());
}

/// A stop of a running server lowers the flag and hands out every
/// registered handler to be joined, leaving none behind; with the flag down,
/// every handler finishes at its next step, sending nothing, and the
/// listener leaves its loop.
pub proof fn law_stop_ends_everything<H>(
    m: CoordinatorModel<H>,
    open: bool,
    ev: EventModel,
    accept: AcceptEvent,
)
    requires
        m.running,
    ensures
        !stopped(m).0.running,
        stopped(m).0.tasks == Seq::<H>::empty(),
        stopped(m).1 == Some(m.tasks),
        next_action(open, stopped(m).0.running, ev) == ActionModel::Finish,
        !stays_open(open, stopped(m).0.running, ev),
        listener_action(stopped(m).0.running, accept) == ListenerAction::Exit,
{
}

/// A stop of a server that is not running changes nothing and hands out
/// nothing; so a second stop after a first is a no-op.
pub proof fn law_idle_stop_is_noop<H>(m: CoordinatorModel<H>)
    ensures
        !m.running ==> stopped(m) == (m, None::<Seq<H>>),
        stopped(stopped(m).0) == (stopped(m).0, None::<Seq<H>>),
{
}

/// The read outcomes of connection `c` in an interleaving of several
/// connections, each outcome tagged with its connection.
pub open spec fn own_events(evs: Seq<(nat, EventModel)>, c: nat) -> Seq<EventModel>
    decreases evs.len(),
{
    if evs.len() == 0 {
        seq![]
    } else {
        (if evs[0].0 == c { seq![evs[0].1] } else { seq![] }) + own_events(evs.drop_first(), c)
    }
}

/// The replies that connection `c` receives, out of all replies, each
/// tagged with its connection.
pub open spec fn received(out: Seq<(nat, Seq<u8>)>, c: nat) -> Seq<Seq<u8>>
    decreases out.len(),
{
    if out.len() == 0 {
        seq![]
    } else {
        (if out[0].0 == c { seq![out[0].1] } else { seq![] }) + received(out.drop_first(), c)
    }
}

/// Whether the handler of connection `c` is open.
pub open spec fn is_open(open: Map<nat, bool>, c: nat) -> bool {
    open.contains_key(c) && open[c]
}

/// The replies of a server whose handlers are `open`, as each handler takes
/// the read outcomes of its own connection in an interleaving of them all.
pub open spec fn serve(open: Map<nat, bool>, running: bool, evs: Seq<(nat, EventModel)>) -> Seq<
    (nat, Seq<u8>),
>
    decreases evs.len(),
{
    if evs.len() == 0 {
        seq![]
    } else {
        let c = evs[0].0;
        let o = is_open(open, c);
        let head = match next_action(o, running, evs[0].1) {
            ActionModel::Reply(out) => seq![(c, out)],
            _ => seq![],
        };
        head + serve(open.insert(c, stays_open(o, running, evs[0].1)), running, evs.drop_first())
    }
}

/// Connections do not interfere: however the reads of several connections
/// interleave, each connection receives exactly the replies that its own
/// handler sends on its own reads alone.
pub proof fn law_connections_independent(
    open: Map<nat, bool>,
    running: bool,
    evs: Seq<(nat, EventModel)>,
    c: nat,
)
    ensures
        received(serve(open, running, evs), c) == replies(is_open(open, c), running, own_events(evs, c)),
    decreases evs.len(),
{
    if evs.len() > 0 {
        let c0 = evs[0].0;
        let ev = evs[0].1;
        let o = is_open(open, c0);
        let open2 = open.insert(c0, stays_open(o, running, ev));
        let rest = evs.drop_first();
        law_connections_independent(open2, running, rest, c);
        let tail = serve(open2, running, rest);
        let all = serve(open, running, evs);
        match next_action(o, running, ev) {
            ActionModel::Reply(out) => {
                assert(all == seq![(c0, out)] + tail);
                assert((seq![(c0, out)] + tail).drop_first() =~= tail);
                assert(received(all, c) == (if c0 == c { seq![out] } else { Seq::<Seq<u8>>::empty() })
                    + received(tail, c));
            },
            _ => {
                assert(all =~= tail);
            },
        }
        if c0 == c {
            assert(own_events(evs, c) == seq![ev] + own_events(rest, c));
            assert((seq![ev] + own_events(rest, c)).drop_first() =~= own_events(rest, c));
            assert(is_open(open2, c) == stays_open(o, running, ev));
            let mine = seq![ev] + own_events(rest, c);
            assert(mine[0] == ev);
            match next_action(o, running, ev) {
                ActionModel::Reply(out) => {
                    assert(replies(o, running, mine) == seq![out] + replies(
                        is_open(open2, c),
                        running,
                        own_events(rest, c),
                    ));
                },
                _ => {
                    assert(replies(o, running, mine) =~= Seq::<Seq<u8>>::empty() + replies(
                        is_open(open2, c),
                        running,
                        own_events(rest, c),
                    ));
                },
            }
        } else {
            assert(own_events(evs, c) =~= own_events(rest, c));
            assert(is_open(open2, c) == is_open(open, c));
        }
    }
}

} // verus!
