//! The requests a client sends, the responses the server returns, and the
//! rule that maps one to the other.
use vstd::prelude::*;

verus! {

/// A decoded client message.
#[derive(Clone, Debug, PartialEq, Eq)]
pub enum Request {
    /// Asks for `text` to be sent back unchanged.
    Echo(String),
    /// Asks for the sum of two 32-bit signed integers.
    Add(i32, i32),
    /// A message that names no request.
    Empty,
}

/// A server message.
#[derive(Clone, Debug, PartialEq, Eq)]
pub enum Response {
    Echo(String),
    Sum(i32),
}

/// What a request is, with its text as characters.
pub enum RequestModel {
    Echo(Seq<char>),
    Add(i32, i32),
    Empty,
}

/// What a response is, with its text as characters.
pub enum ResponseModel {
    Echo(Seq<char>),
    Sum(i32),
}

impl View for Request {
    type V = RequestModel;

    open spec fn view(&self) -> RequestModel {
        match self {
            Request::Echo(t) => RequestModel::Echo(t@),
            Request::Add(a, b) => RequestModel::Add(*a, *b),
            Request::Empty => RequestModel::Empty,
        }
    }
}

impl View for Response {
    type V = ResponseModel;

    open spec fn view(&self) -> ResponseModel {
        match self {
            Response::Echo(t) => ResponseModel::Echo(t@),
            Response::Sum(s) => ResponseModel::Sum(*s),
        }
    }
}

/// The sum of `a` and `b` taken modulo 2^32 into the range of `i32`.
pub open spec fn wrapping_sum(a: i32, b: i32) -> i32 {
    vstd::wrapping::i32_specs::wrapping_add(a, b)
}

/// The response owed to a request: the same text for an echo, the wrapping
/// sum for an addition, none for an empty message.
pub open spec fn answer(q: RequestModel) -> Option<ResponseModel> {
    match q {
        RequestModel::Echo(t) => Some(ResponseModel::Echo(t)),
        RequestModel::Add(a, b) => Some(ResponseModel::Sum(wrapping_sum(a, b))),
        RequestModel::Empty => None,
    }
}

/// Computes the response to `req`, or `None` where the message asks nothing.
pub fn dispatch(req: &Request) -> (r: Option<Response>)
    ensures
        r matches Some(x) ==> answer(req@) == Some(x@),
        r is None ==> answer(req@) is None,
{
    match req {
        Request::Echo(t) => Some(Response::Echo(t.clone())),
        Request::Add(a, b) => Some(Response::Sum(a.wrapping_add(*b))),
        Request::Empty => None,
    }
}

} // verus!
