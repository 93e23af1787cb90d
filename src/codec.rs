//! The protobuf wire form of the two message kinds.
//!
//! A client message holds at most one of two fields: field 1, a text message
//! (its field 1 is the text), and field 2, an integer message (fields 1 and 2
//! are the operands of an addition). A server message holds field 1, a text
//! message, or field 2, an integer message whose field 1 is the sum. Fields
//! are read in order; a later field of the same kind is merged into the one
//! before, a field of the other kind replaces it, and unknown fields are
//! skipped, groups included. Groups nest at most 100 deep in an outer message
//! and 99 deep in a message inside it.
use vstd::prelude::*;
use vstd::utf8::{decode_utf8, encode_utf8, valid_utf8};
use crate::message::{Request, RequestModel, Response, ResponseModel};
use crate::varint::{
    lemma_parse_varint_bytes, lemma_varint_len, parse_varint, put_varint, take_varint, u64_limit,
    varint_bytes,
};

verus! {

// ---------------------------------------------------------------- reading

/// How deep groups may nest in an outer message.
pub const OUTER_DEPTH: u64 = 100;

/// How deep groups may nest in a message inside an outer one.
pub const INNER_DEPTH: u64 = 99;

/// The key at the front of `b`: field number, wire type and the bytes it takes.
pub open spec fn parse_key(b: Seq<u8>) -> Option<(u64, u64, nat)> {
    match parse_varint(b) {
        Some((k, n)) => if k <= 0xFFFF_FFFF && k % 8 <= 5 && k / 8 >= 1 {
            Some(((k / 8) as u64, (k % 8) as u64, n))
        } else {
            None
        },
        None => None,
    }
}

/// A length-delimited value at the front of `b`: its payload and the bytes it takes.
pub open spec fn parse_delimited(b: Seq<u8>) -> Option<(Seq<u8>, nat)> {
    match parse_varint(b) {
        Some((l, n)) => if n + l <= b.len() {
            Some((b.subrange(n as int, n + l), (n + l) as nat))
        } else {
            None
        },
        None => None,
    }
}

/// The bytes taken by a skipped value of wire type `wt` at the front of `b`.
pub open spec fn skip_len(wt: u64, b: Seq<u8>) -> Option<nat> {
    if wt == 0 {
        match parse_varint(b) {
            Some((_, n)) => Some(n),
            None => None,
        }
    } else if wt == 1 {
        if b.len() >= 8 { Some(8) } else { None }
    } else if wt == 5 {
        if b.len() >= 4 { Some(4) } else { None }
    } else if wt == 2 {
        match parse_delimited(b) {
            Some((_, n)) => Some(n),
            None => None,
        }
    } else {
        None
    }
}

/// `o` with `k` added to the length it holds.
pub open spec fn shift(o: Option<nat>, k: nat) -> Option<nat> {
    match o {
        Some(n) => Some(n + k),
        None => None,
    }
}

/// The bytes taken by an unknown field of wire type `wt` and number `tag`
/// at the front of `b` (after its key), where groups may still nest `depth`
/// levels.
pub open spec fn skip_field_len(wt: u64, tag: u64, b: Seq<u8>, depth: nat) -> Option<nat>
    decreases b.len(), 1nat,
{
    if depth == 0 {
        None
    } else if wt == 3 {
        group_len(tag, b, depth)
    } else if wt == 4 {
        None
    } else {
        skip_len(wt, b)
    }
}

/// The bytes taken by the rest of group `tag` at the front of `b`, up to and
/// including the key that ends it.
pub open spec fn group_len(tag: u64, b: Seq<u8>, depth: nat) -> Option<nat>
    decreases b.len(), 0nat,
{
    if depth == 0 {
        None
    } else {
        match parse_key(b) {
            Some((t, w, k)) => if k < 1 || k > b.len() {
                None
            } else if w == 4 {
                if t == tag { Some(k) } else { None }
            } else {
                match skip_field_len(w, t, b.skip(k as int), (depth - 1) as nat) {
                    Some(m) => if k + m <= b.len() {
                        shift(group_len(tag, b.skip((k + m) as int), depth), (k + m) as nat)
                    } else {
                        None
                    },
                    None => None,
                }
            },
            None => None,
        }
    }
}

/// The low 32 bits of `v` read as a two's complement `i32`.
pub open spec fn low_i32(v: u64) -> i32 {
    let m = v % 0x1_0000_0000;
    if m < 0x8000_0000 {
        m as i32
    } else {
        (m - 0x1_0000_0000) as i32
    }
}

/// One field of a text message at the front of `b`, applied to `text`.
pub open spec fn text_field(b: Seq<u8>, text: Seq<char>) -> Option<(Seq<char>, nat)> {
    match parse_key(b) {
        Some((tag, wt, k)) => {
            let rest = b.skip(k as int);
            if tag == 1 {
                if wt != 2 {
                    None
                } else {
                    match parse_delimited(rest) {
                        Some((s, m)) => if valid_utf8(s) {
                            Some((decode_utf8(s), k + m))
                        } else {
                            None
                        },
                        None => None,
                    }
                }
            } else {
                match skip_field_len(wt, tag, rest, INNER_DEPTH as nat) {
                    Some(m) => Some((text, k + m)),
                    None => None,
                }
            }
        },
        None => None,
    }
}

/// The text after reading every field of `b`, starting from `text`.
pub open spec fn text_fields(b: Seq<u8>, text: Seq<char>) -> Option<Seq<char>>
    decreases b.len(),
{
    if b.len() == 0 {
        Some(text)
    } else {
        match text_field(b, text) {
            Some((t, n)) => if 0 < n <= b.len() {
                text_fields(b.skip(n as int), t)
            } else {
                None
            },
            None => None,
        }
    }
}

/// One field of an integer message at the front of `b`, applied to `st`;
/// fields past `arity` are skipped.
pub open spec fn int_field(b: Seq<u8>, st: (i32, i32), arity: u64) -> Option<((i32, i32), nat)> {
    match parse_key(b) {
        Some((tag, wt, k)) => {
            let rest = b.skip(k as int);
            if 1 <= tag <= arity {
                if wt != 0 {
                    None
                } else {
                    match parse_varint(rest) {
                        Some((v, m)) => if tag == 1 {
                            Some(((low_i32(v), st.1), k + m))
                        } else {
                            Some(((st.0, low_i32(v)), k + m))
                        },
                        None => None,
                    }
                }
            } else {
                match skip_field_len(wt, tag, rest, INNER_DEPTH as nat) {
                    Some(m) => Some((st, k + m)),
                    None => None,
                }
            }
        },
        None => None,
    }
}

/// The integers after reading every field of `b`, starting from `st`.
pub open spec fn int_fields(b: Seq<u8>, st: (i32, i32), arity: u64) -> Option<(i32, i32)>
    decreases b.len(),
{
    if b.len() == 0 {
        Some(st)
    } else {
        match int_field(b, st, arity) {
            Some((s, n)) => if 0 < n <= b.len() {
                int_fields(b.skip(n as int), s, arity)
            } else {
                None
            },
            None => None,
        }
    }
}

/// One field of an outer message at the front of `b`, applied to `st`.
pub open spec fn outer_field(b: Seq<u8>, st: RequestModel, arity: u64) -> Option<(RequestModel, nat)> {
    match parse_key(b) {
        Some((tag, wt, k)) => {
            let rest = b.skip(k as int);
            if tag == 1 || tag == 2 {
                if wt != 2 {
                    None
                } else {
                    match parse_delimited(rest) {
                        Some((s, m)) => if tag == 1 {
                            let init = match st {
                                RequestModel::Echo(t) => t,
                                _ => Seq::empty(),
                            };
                            match text_fields(s, init) {
                                Some(t) => Some((RequestModel::Echo(t), k + m)),
                                None => None,
                            }
                        } else {
                            let init = match st {
                                RequestModel::Add(x, y) => (x, y),
                                _ => (0i32, 0i32),
                            };
                            match int_fields(s, init, arity) {
                                Some((x, y)) => Some((RequestModel::Add(x, y), k + m)),
                                None => None,
                            }
                        },
                        None => None,
                    }
                }
            } else {
                match skip_field_len(wt, tag, rest, OUTER_DEPTH as nat) {
                    Some(m) => Some((st, k + m)),
                    None => None,
                }
            }
        },
        None => None,
    }
}

/// The message after reading every field of `b`, starting from `st`. A server
/// message is read with the same shape: its integer message (`arity` 1)
/// yields `Add(sum, 0)`.
pub open spec fn outer_fields(b: Seq<u8>, st: RequestModel, arity: u64) -> Option<RequestModel>
    decreases b.len(),
{
    if b.len() == 0 {
        Some(st)
    } else {
        match outer_field(b, st, arity) {
            Some((s, n)) => if 0 < n <= b.len() {
                outer_fields(b.skip(n as int), s, arity)
            } else {
                None
            },
            None => None,
        }
    }
}

/// The request that the bytes `b` encode, or `None` where they are malformed.
pub open spec fn parse_request(b: Seq<u8>) -> Option<RequestModel> {
    outer_fields(b, RequestModel::Empty, 2)
}

/// The response that the bytes `b` encode, or `None` where they are malformed
/// or hold no response.
pub open spec fn parse_response(b: Seq<u8>) -> Option<ResponseModel> {
    match outer_fields(b, RequestModel::Empty, 1) {
        Some(RequestModel::Echo(t)) => Some(ResponseModel::Echo(t)),
        Some(RequestModel::Add(x, _)) => Some(ResponseModel::Sum(x)),
        _ => None,
    }
}

/// Relies on std::str::from_utf8: it accepts exactly the valid UTF-8 byte
/// sequences, and the text is what they encode.
#[verifier::external_body]
fn text_of(b: &[u8]) -> (r: Option<String>)
    ensures
        r is Some <==> valid_utf8(b@),
        r matches Some(s) ==> s@ == decode_utf8(b@),
{
    std::str::from_utf8(b).ok().map(|s| s.to_string())
}

fn read_key(b: &[u8]) -> (r: Option<(u64, u64, &[u8])>)
    ensures
        match parse_key(b@) {
            Some((tag, wt, n)) => r matches Some((t, w, rest)) && t == tag && w == wt && 1 <= n
                <= b@.len() && rest@ == b@.skip(n as int),
            None => r is None,
        },
{
    match take_varint(b) {
        Some((k, rest)) => {
            proof {
                lemma_varint_len(b@, 0);
            }
            if k <= 0xFFFF_FFFF && k % 8 <= 5 && k / 8 >= 1 {
                Some((k / 8, k % 8, rest))
            } else {
                None
            }
        },
        None => None,
    }
}

fn read_delimited(b: &[u8]) -> (r: Option<(&[u8], &[u8])>)
    ensures
        match parse_delimited(b@) {
            Some((s, n)) => r matches Some((p, rest)) && p@ == s && n <= b@.len() && rest@ == b@.skip(
                n as int,
            ),
            None => r is None,
        },
{
    match take_varint(b) {
        Some((l, rest)) => {
            proof {
                lemma_varint_len(b@, 0);
            }
            if l <= rest.len() as u64 {
                let p = vstd::slice::slice_subrange(rest, 0, l as usize);
                let after = vstd::slice::slice_subrange(rest, l as usize, rest.len());
                proof {
                    let n = parse_varint(b@).unwrap().1;
                    assert(p@ =~= b@.subrange(n as int, n + l));
                    assert(after@ =~= b@.skip(n + l));
                }
                Some((p, after))
            } else {
                None
            }
        },
        None => None,
    }
}

fn skip_value(wt: u64, b: &[u8]) -> (r: Option<&[u8]>)
    ensures
        match skip_len(wt, b@) {
            Some(n) => r matches Some(rest) && n <= b@.len() && rest@ == b@.skip(n as int),
            None => r is None,
        },
{
    if wt == 0 {
        match take_varint(b) {
            Some((_, rest)) => {
                proof {
                    lemma_varint_len(b@, 0);
                }
                Some(rest)
            },
            None => None,
        }
    } else if wt == 1 || wt == 5 {
        let w: usize = if wt == 1 { 8 } else { 4 };
        if b.len() >= w {
            let rest = vstd::slice::slice_subrange(b, w, b.len());
            assert(rest@ =~= b@.skip(w as int));
            Some(rest)
        } else {
            None
        }
    } else if wt == 2 {
        match read_delimited(b) {
            Some((_, rest)) => Some(rest),
            None => None,
        }
    } else {
        None
    }
}

fn skip_field(wt: u64, tag: u64, b: &[u8], depth: u64) -> (r: Option<&[u8]>)
    ensures
        match skip_field_len(wt, tag, b@, depth as nat) {
            Some(n) => r matches Some(rest) && n <= b@.len() && rest@ == b@.skip(n as int),
            None => r is None,
        },
    decreases b@.len(), 1nat,
{
    if depth == 0 {
        None
    } else if wt == 3 {
        skip_group(tag, b, depth)
    } else if wt == 4 {
        None
    } else {
        skip_value(wt, b)
    }
}

fn skip_group(tag: u64, b: &[u8], depth: u64) -> (r: Option<&[u8]>)
    requires
        depth >= 1,
    ensures
        match group_len(tag, b@, depth as nat) {
            Some(n) => r matches Some(rest) && n <= b@.len() && rest@ == b@.skip(n as int),
            None => r is None,
        },
    decreases b@.len(), 0nat,
{
    let mut rest = b;
    loop
        invariant
            depth >= 1,
            rest@.len() <= b@.len(),
            rest@ == b@.skip(b@.len() - rest@.len()),
            group_len(tag, b@, depth as nat) == shift(
                group_len(tag, rest@, depth as nat),
                (b@.len() - rest@.len()) as nat,
            ),
        decreases rest@.len(),
    {
        let (t, w, after) = match read_key(rest) {
            Some(x) => x,
            None => return None,
        };
        let ghost k = parse_key(rest@).unwrap().2;
        if w == 4 {
            if t == tag {
                assert(after@ =~= b@.skip(b@.len() - rest@.len() + k));
                return Some(after);
            }
            return None;
        }
        let after2 = match skip_field(w, t, after, depth - 1) {
            Some(x) => x,
            None => return None,
        };
        proof {
            let m = skip_field_len(w, t, after@, (depth - 1) as nat).unwrap();
            assert(after2@ =~= rest@.skip((k + m) as int));
            assert(after2@ =~= b@.skip(b@.len() - after2@.len()));
        }
        rest = after2;
    }
}

fn low_i32_of(v: u64) -> (r: i32)
    ensures
        r == low_i32(v),
{
    let m: u64 = v % 0x1_0000_0000;
    if m < 0x8000_0000 {
        m as i32
    } else {
        (m as i64 - 0x1_0000_0000i64) as i32
    }
}

fn decode_text(b: &[u8], init: String) -> (r: Option<String>)
    ensures
        match text_fields(b@, init@) {
            Some(t) => r matches Some(s) && s@ == t,
            None => r is None,
        },
{
    let mut rest = b;
    let mut text = init;
    while rest.len() > 0
        invariant
            text_fields(rest@, text@) == text_fields(b@, init@),
        decreases rest.len(),
    {
        let (tag, wt, after) = match read_key(rest) {
            Some(x) => x,
            None => return None,
        };
        let ghost k = parse_key(rest@).unwrap().2;
        if tag == 1 {
            if wt != 2 {
                return None;
            }
            let (p, after2) = match read_delimited(after) {
                Some(x) => x,
                None => return None,
            };
            let ghost m = parse_delimited(after@).unwrap().1;
            match text_of(p) {
                Some(s) => {
                    proof {
                        assert(after2@ =~= rest@.skip((k + m) as int));
                    }
                    text = s;
                    rest = after2;
                },
                None => return None,
            }
        } else {
            let after2 = match skip_field(wt, tag, after, INNER_DEPTH) {
                Some(x) => x,
                None => return None,
            };
            proof {
                let m = skip_field_len(wt, tag, after@, INNER_DEPTH as nat).unwrap();
                assert(after2@ =~= rest@.skip((k + m) as int));
            }
            rest = after2;
        }
    }
    Some(text)
}

fn decode_ints(b: &[u8], init: (i32, i32), arity: u64) -> (r: Option<(i32, i32)>)
    ensures
        r == int_fields(b@, init, arity),
{
    let mut rest = b;
    let mut st = init;
    while rest.len() > 0
        invariant
            int_fields(rest@, st, arity) == int_fields(b@, init, arity),
        decreases rest.len(),
    {
        let (tag, wt, after) = match read_key(rest) {
            Some(x) => x,
            None => return None,
        };
        let ghost k = parse_key(rest@).unwrap().2;
        if 1 <= tag && tag <= arity {
            if wt != 0 {
                return None;
            }
            let (v, after2) = match take_varint(after) {
                Some(x) => x,
                None => return None,
            };
            proof {
                lemma_varint_len(after@, 0);
                let m = parse_varint(after@).unwrap().1;
                assert(after2@ =~= rest@.skip((k + m) as int));
            }
            if tag == 1 {
                st = (low_i32_of(v), st.1);
            } else {
                st = (st.0, low_i32_of(v));
            }
            rest = after2;
        } else {
            let after2 = match skip_field(wt, tag, after, INNER_DEPTH) {
                Some(x) => x,
                None => return None,
            };
            proof {
                let m = skip_field_len(wt, tag, after@, INNER_DEPTH as nat).unwrap();
                assert(after2@ =~= rest@.skip((k + m) as int));
            }
            rest = after2;
        }
    }
    Some(st)
}

/// Reads every field of an outer message; `arity` is the number of integer
/// fields that its integer message has.
fn decode_outer(b: &[u8], arity: u64) -> (r: Option<Request>)
    ensures
        match outer_fields(b@, RequestModel::Empty, arity) {
            Some(q) => r matches Some(x) && x@ == q,
            None => r is None,
        },
{
    let mut rest = b;
    let mut st = Request::Empty;
    while rest.len() > 0
        invariant
            outer_fields(rest@, st@, arity) == outer_fields(b@, RequestModel::Empty, arity),
        decreases rest.len(),
    {
        let (tag, wt, after) = match read_key(rest) {
            Some(x) => x,
            None => return None,
        };
        let ghost k = parse_key(rest@).unwrap().2;
        if tag == 1 || tag == 2 {
            if wt != 2 {
                return None;
            }
            let (p, after2) = match read_delimited(after) {
                Some(x) => x,
                None => return None,
            };
            let ghost m = parse_delimited(after@).unwrap().1;
            proof {
                assert(after2@ =~= rest@.skip((k + m) as int));
            }
            if tag == 1 {
                let init = match st {
                    Request::Echo(t) => t,
                    _ => String::new(),
                };
                match decode_text(p, init) {
                    Some(t) => st = Request::Echo(t),
                    None => return None,
                }
            } else {
                let init = match st {
                    Request::Add(x, y) => (x, y),
                    _ => (0i32, 0i32),
                };
                match decode_ints(p, init, arity) {
                    Some((x, y)) => st = Request::Add(x, y),
                    None => return None,
                }
            }
            rest = after2;
        } else {
            let after2 = match skip_field(wt, tag, after, OUTER_DEPTH) {
                Some(x) => x,
                None => return None,
            };
            proof {
                let m = skip_field_len(wt, tag, after@, OUTER_DEPTH as nat).unwrap();
                assert(after2@ =~= rest@.skip((k + m) as int));
            }
            rest = after2;
        }
    }
    Some(st)
}

/// Decodes one client message; `None` where the bytes are malformed.
pub fn decode_request(b: &[u8]) -> (r: Option<Request>)
    ensures
        match parse_request(b@) {
            Some(q) => r matches Some(x) && x@ == q,
            None => r is None,
        },
{
    decode_outer(b, 2)
}

/// Decodes one server message; `None` where the bytes are malformed or name
/// no response.
pub fn decode_response(b: &[u8]) -> (r: Option<Response>)
    ensures
        match parse_response(b@) {
            Some(a) => r matches Some(x) && x@ == a,
            None => r is None,
        },
{
    match decode_outer(b, 1) {
        Some(Request::Echo(t)) => Some(Response::Echo(t)),
        Some(Request::Add(x, _)) => Some(Response::Sum(x)),
        _ => None,
    }
}

// ---------------------------------------------------------------- writing

/// The varint that protobuf writes for an `i32`: its sign extension to 64 bits.
pub open spec fn widen(x: i32) -> u64 {
    if x >= 0 {
        x as u64
    } else {
        (x + 0x1_0000_0000_0000_0000) as u64
    }
}

/// An integer field; a zero is left out.
pub open spec fn int_field_bytes(tag: nat, x: i32) -> Seq<u8> {
    if x == 0 {
        seq![]
    } else {
        varint_bytes(tag * 8) + varint_bytes(widen(x) as nat)
    }
}

/// The fields of a text message; an empty text is left out.
pub open spec fn text_body(t: Seq<char>) -> Seq<u8> {
    let u = encode_utf8(t);
    if u.len() == 0 {
        seq![]
    } else {
        varint_bytes(10) + varint_bytes(u.len()) + u
    }
}

/// A length-delimited field that holds `body`.
pub open spec fn delimited(tag: nat, body: Seq<u8>) -> Seq<u8> {
    varint_bytes(tag * 8 + 2) + varint_bytes(body.len()) + body
}

/// The bytes of a client message.
pub open spec fn request_bytes(q: RequestModel) -> Seq<u8> {
    match q {
        RequestModel::Echo(t) => delimited(1, text_body(t)),
        RequestModel::Add(a, b) => delimited(2, int_field_bytes(1, a) + int_field_bytes(2, b)),
        RequestModel::Empty => seq![],
    }
}

/// The bytes of a server message.
pub open spec fn response_bytes(a: ResponseModel) -> Seq<u8> {
    match a {
        ResponseModel::Echo(t) => delimited(1, text_body(t)),
        ResponseModel::Sum(s) => delimited(2, int_field_bytes(1, s)),
    }
}

fn put_int_field(buf: &mut Vec<u8>, tag: u64, x: i32)
    requires
        tag == 1 || tag == 2,
    ensures
        final(buf)@ == old(buf)@ + int_field_bytes(tag as nat, x),
{
    if x != 0 {
        put_varint(buf, tag * 8);
        let w: u64 = if x >= 0 {
            x as u64
        } else {
            (x as i128 + 0x1_0000_0000_0000_0000i128) as u64
        };
        put_varint(buf, w);
        assert(final(buf)@ =~= old(buf)@ + int_field_bytes(tag as nat, x));
    } else {
        assert(final(buf)@ =~= old(buf)@ + int_field_bytes(tag as nat, x));
    }
}

fn text_body_of(t: &String) -> (r: Vec<u8>)
    ensures
        r@ == text_body(t@),
{
    let bytes = t.as_str().as_bytes();
    let mut r: Vec<u8> = Vec::new();
    if bytes.len() > 0 {
        put_varint(&mut r, 10);
        put_varint(&mut r, bytes.len() as u64);
        let mut u = vstd::slice::slice_to_vec(bytes);
        r.append(&mut u);
    }
    assert(r@ =~= text_body(t@));
    r
}

fn put_delimited(buf: &mut Vec<u8>, tag: u64, body: Vec<u8>)
    requires
        tag == 1 || tag == 2,
    ensures
        final(buf)@ == old(buf)@ + delimited(tag as nat, body@),
{
    let ghost b0 = body@;
    put_varint(buf, tag * 8 + 2);
    put_varint(buf, body.len() as u64);
    let mut body = body;
    buf.append(&mut body);
    assert(final(buf)@ =~= old(buf)@ + delimited(tag as nat, b0));
}

/// Encodes one client message.
pub fn encode_request(q: &Request) -> (r: Vec<u8>)
    ensures
        r@ == request_bytes(q@),
{
    let mut r: Vec<u8> = Vec::new();
    match q {
        Request::Echo(t) => put_delimited(&mut r, 1, text_body_of(t)),
        Request::Add(a, b) => {
            let mut body: Vec<u8> = Vec::new();
            put_int_field(&mut body, 1, *a);
            put_int_field(&mut body, 2, *b);
            put_delimited(&mut r, 2, body);
        },
        Request::Empty => {},
    }
    assert(r@ =~= request_bytes(q@));
    r
}

/// Encodes one server message.
pub fn encode_response(a: &Response) -> (r: Vec<u8>)
    ensures
        r@ == response_bytes(a@),
{
    let mut r: Vec<u8> = Vec::new();
    match a {
        Response::Echo(t) => put_delimited(&mut r, 1, text_body_of(t)),
        Response::Sum(s) => {
            let mut body: Vec<u8> = Vec::new();
            put_int_field(&mut body, 1, *s);
            put_delimited(&mut r, 2, body);
        },
    }
    assert(r@ =~= response_bytes(a@));
    r
}

// ---------------------------------------------------------------- round trips

proof fn lemma_key(v: nat, rest: Seq<u8>)
    requires
        v == 8 || v == 10 || v == 16 || v == 18,
    ensures
        parse_key(varint_bytes(v) + rest) == Some(((v / 8) as u64, (v % 8) as u64, 1nat)),
        varint_bytes(v) =~= seq![v as u8],
{
    lemma_parse_varint_bytes(v, rest);
}

proof fn lemma_delimited_front(tag: nat, body: Seq<u8>, rest: Seq<u8>)
    requires
        tag == 1 || tag == 2,
        body.len() < u64_limit(),
    ensures
        parse_key(delimited(tag, body) + rest) == Some((tag as u64, 2u64, 1nat)),
        parse_delimited((delimited(tag, body) + rest).skip(1)) == Some(
            (body, (delimited(tag, body).len() - 1) as nat),
        ),
{
    let lb = varint_bytes(body.len());
    let b = delimited(tag, body) + rest;
    assert(b =~= varint_bytes(tag * 8 + 2) + (lb + body + rest));
    lemma_key(tag * 8 + 2, lb + body + rest);
    assert(b.skip(1) =~= lb + (body + rest));
    lemma_parse_varint_bytes(body.len(), body + rest);
    assert(b.skip(1).subrange(lb.len() as int, (lb.len() + body.len()) as int) =~= body);
}

/// A text message reads back as its text.
pub proof fn lemma_text_round_trip(t: Seq<char>)
    requires
        encode_utf8(t).len() < u64_limit(),
    ensures
        text_fields(text_body(t), Seq::empty()) == Some(t),
{
    let u = encode_utf8(t);
    vstd::utf8::encode_utf8_valid_utf8(t);
    vstd::utf8::encode_utf8_decode_utf8(t);
    if u.len() == 0 {
        assert(u =~= Seq::<u8>::empty());
        assert(decode_utf8(Seq::<u8>::empty()) == Seq::<char>::empty());
        assert(t =~= Seq::<char>::empty());
    } else {
        let b = text_body(t);
        lemma_delimited_front(1, u, Seq::empty());
        assert(delimited(1, u) + Seq::empty() =~= b);
        assert(delimited(1, u) =~= b);
        assert(parse_key(b) == Some((1u64, 2u64, 1nat)));
        assert(parse_delimited(b.skip(1)) == Some((u, (b.len() - 1) as nat)));
        assert(text_field(b, Seq::empty()) == Some((t, b.len())));
        assert(b.skip(b.len() as int) =~= Seq::<u8>::empty());
        assert(text_fields(b.skip(b.len() as int), t) == Some(t));
    }
}

/// The varint of an `i32` reads back as that `i32`.
pub proof fn lemma_int_round_trip(x: i32)
    ensures
        low_i32(widen(x)) == x,
        (widen(x) as nat) < u64_limit(),
{
    if x < 0 {
        let w = widen(x) as int;
        assert(w == (x + 0x1_0000_0000) + 0x1_0000_0000 * 0xFFFF_FFFF);
        assert(w % 0x1_0000_0000 == x + 0x1_0000_0000) by (nonlinear_arith)
            requires
                w == (x + 0x1_0000_0000) + 0x1_0000_0000 * 0xFFFF_FFFF,
                0 <= x + 0x1_0000_0000 < 0x1_0000_0000,
        ;
    }
}

proof fn lemma_int_field(tag: u64, x: i32, st: (i32, i32), arity: u64, rest: Seq<u8>)
    requires
        1 <= tag <= arity <= 2,
        x != 0,
    ensures
        int_field(int_field_bytes(tag as nat, x) + rest, st, arity) == Some(
            (if tag == 1 { (x, st.1) } else { (st.0, x) }, int_field_bytes(tag as nat, x).len()),
        ),
{
    let vb = varint_bytes(widen(x) as nat);
    let b = int_field_bytes(tag as nat, x) + rest;
    lemma_int_round_trip(x);
    assert(b =~= varint_bytes(tag as nat * 8) + (vb + rest));
    lemma_key(tag as nat * 8, vb + rest);
    assert(b.skip(1) =~= vb + rest);
    lemma_parse_varint_bytes(widen(x) as nat, rest);
}

/// The fields of an integer message read back as its integers.
pub proof fn lemma_ints_round_trip(a: i32, b: i32, arity: u64)
    requires
        1 <= arity <= 2,
    ensures
        int_fields(int_field_bytes(1, a) + (if arity == 2 { int_field_bytes(2, b) } else { seq![] }), (0i32, 0i32), arity)
            == Some((a, if arity == 2 { b } else { 0i32 })),
{
    let fb = if arity == 2 { int_field_bytes(2, b) } else { seq![] };
    let all = int_field_bytes(1, a) + fb;
    if arity == 2 && b != 0 {
        lemma_int_field(2, b, (a, 0), arity, Seq::empty());
        assert(fb + Seq::empty() =~= fb);
        assert(int_field(fb, (a, 0), arity) == Some(((a, b), fb.len())));
        assert(fb.skip(fb.len() as int) =~= Seq::<u8>::empty());
        assert(int_fields(fb.skip(fb.len() as int), (a, b), arity) == Some((a, b)));
    } else {
        assert(fb =~= Seq::<u8>::empty());
    }
    assert(int_fields(fb, (a, 0), arity) == Some((a, if arity == 2 { b } else { 0i32 })));
    if a != 0 {
        lemma_int_field(1, a, (0, 0), arity, fb);
        assert(all.skip(int_field_bytes(1, a).len() as int) =~= fb);
    } else {
        assert(all =~= fb);
    }
}

proof fn lemma_outer_delimited(tag: nat, body: Seq<u8>, arity: u64)
    requires
        tag == 1 || tag == 2,
        body.len() < u64_limit(),
    ensures
        outer_fields(delimited(tag, body), RequestModel::Empty, arity) == if tag == 1 {
            match text_fields(body, Seq::empty()) {
                Some(t) => Some(RequestModel::Echo(t)),
                None => None,
            }
        } else {
            match int_fields(body, (0i32, 0i32), arity) {
                Some((x, y)) => Some(RequestModel::Add(x, y)),
                None => None,
            }
        },
{
    let d = delimited(tag, body);
    lemma_delimited_front(tag, body, Seq::empty());
    assert(d + Seq::empty() =~= d);
    assert(parse_key(d) == Some((tag as u64, 2u64, 1nat)));
    assert(parse_delimited(d.skip(1)) == Some((body, (d.len() - 1) as nat)));
    assert(d.skip(d.len() as int) =~= Seq::<u8>::empty());
    if tag == 1 {
        match text_fields(body, Seq::empty()) {
            Some(t) => {
                assert(outer_field(d, RequestModel::Empty, arity) == Some((RequestModel::Echo(t), d.len())));
                assert(outer_fields(d.skip(d.len() as int), RequestModel::Echo(t), arity) == Some(RequestModel::Echo(t)));
            },
            None => {
                assert(outer_field(d, RequestModel::Empty, arity) is None);
            },
        }
    } else {
        match int_fields(body, (0i32, 0i32), arity) {
            Some((x, y)) => {
                assert(outer_field(d, RequestModel::Empty, arity) == Some((RequestModel::Add(x, y), d.len())));
                assert(outer_fields(d.skip(d.len() as int), RequestModel::Add(x, y), arity) == Some(RequestModel::Add(x, y)));
            },
            None => {
                assert(outer_field(d, RequestModel::Empty, arity) is None);
            },
        }
    }
}

/// Every client message reads back as itself.
pub proof fn lemma_request_round_trip(q: RequestModel)
    requires
        q matches RequestModel::Echo(t) ==> encode_utf8(t).len() <= 0x7FFF_FFFF_FFFF_FFFF,
    ensures
        parse_request(request_bytes(q)) == Some(q),
{
    match q {
        RequestModel::Echo(t) => {
            lemma_text_round_trip(t);
            lemma_parse_varint_bytes(encode_utf8(t).len(), Seq::empty());
            lemma_outer_delimited(1, text_body(t), 2);
        },
        RequestModel::Add(a, b) => {
            lemma_ints_round_trip(a, b, 2);
            lemma_int_round_trip(a);
            lemma_int_round_trip(b);
            lemma_parse_varint_bytes(widen(a) as nat, Seq::empty());
            lemma_parse_varint_bytes(widen(b) as nat, Seq::empty());
            lemma_outer_delimited(2, int_field_bytes(1, a) + int_field_bytes(2, b), 2);
        },
        RequestModel::Empty => {},
    }
}

/// Every server message reads back as itself.
pub proof fn lemma_response_round_trip(a: ResponseModel)
    requires
        a matches ResponseModel::Echo(t) ==> encode_utf8(t).len() <= 0x7FFF_FFFF_FFFF_FFFF,
    ensures
        parse_response(response_bytes(a)) == Some(a),
{
    match a {
        ResponseModel::Echo(t) => {
            lemma_text_round_trip(t);
            lemma_parse_varint_bytes(encode_utf8(t).len(), Seq::empty());
            lemma_outer_delimited(1, text_body(t), 1);
        },
        ResponseModel::Sum(s) => {
            lemma_ints_round_trip(s, 0, 1);
            lemma_int_round_trip(s);
            lemma_parse_varint_bytes(widen(s) as nat, Seq::empty());
            assert(int_field_bytes(1, s) + seq![] =~= int_field_bytes(1, s));
            lemma_outer_delimited(2, int_field_bytes(1, s), 1);
        },
    }
}

} // verus!
