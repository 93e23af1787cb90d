//! A small request/response protocol server, reduced to its verified core:
//! the message model and its dispatch rule, the protobuf wire codec for the
//! two message kinds, and the decisions of the connection handler, the
//! listener loop and the shutdown coordinator.
pub mod codec;
pub mod laws;
pub mod message;
pub mod session;
pub mod shutdown;
pub mod varint;
