//! A TCP port-mapping tunnel: framing of messages on a byte stream, routing of
//! tunnel traffic between two endpoints, and the per-connection state machines.

pub mod addr;
pub mod cli;
pub mod endpoint;
pub mod error;
pub mod frame;
pub mod hole;
pub mod mapper;
pub mod msg;
pub mod port;
pub mod queue;
pub mod stream;
pub mod table;
pub mod text;
pub mod tunnel;
