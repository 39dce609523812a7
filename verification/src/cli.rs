//! The command line's side of the conversation with an endpoint.

use vstd::prelude::*;

use crate::addr::SocketAddr;
use crate::endpoint;
use crate::endpoint::{Ctl, CtlRsp};
use crate::error::Error;

verus! {

/// A command for the endpoint that listens at `cli_addr`.
#[derive(Debug)]
pub struct Cli {
    pub cli_addr: SocketAddr,
    pub action: Action,
}

/// What an endpoint can be asked to do with its mappings.
#[derive(Debug)]
pub enum Action {
    MapAdd { lst_addr: SocketAddr, dst_addr: SocketAddr },
    MapRm { lst_addr: SocketAddr, dst_addr: SocketAddr },
    MapLs,
    MapLoad { map_file: String },
    MapDump,
}

/// What `cli` is told.
#[derive(Debug)]
pub enum CliEvent {
    /// The endpoint could be reached, or not.
    Connected(bool),
    /// The request was sent, or not.
    Sent(Result<(), Error>),
    /// The endpoint answered, or the answer could not be read.
    Answered(Result<CtlRsp, Error>),
}

/// What `cli` asks for.
#[derive(Debug)]
pub enum CliAction {
    /// Send the request (`Cli::request`).
    Send,
    /// Wait for the answer.
    Receive,
    /// Print this, and end.
    Print(String),
    /// End.
    Stop,
}

impl Cli {
    /// The request that carries the command.
    pub fn request(self) -> (ctl: Ctl)
        ensures
            ctl == Ctl::Act(self.action),
    {
        Ctl::Act(self.action)
    }
}

/// The course of one command: send it, wait for the answer, print it. Any failure
/// on the way ends it.
pub fn cli(event: CliEvent) -> (action: CliAction)
    ensures
        match event {
            CliEvent::Connected(ok) => action == if ok {
                CliAction::Send
            } else {
                CliAction::Stop
            },
            CliEvent::Sent(r) => action == if r is Ok {
                CliAction::Receive
            } else {
                CliAction::Stop
            },
            CliEvent::Answered(Ok(rsp)) => action matches CliAction::Print(s) && s@
                == endpoint::rsp_text(rsp),
            CliEvent::Answered(Err(_)) => action == CliAction::Stop,
        },
{
    match event {
        CliEvent::Connected(ok) => if ok {
            CliAction::Send
        } else {
            CliAction::Stop
        },
        CliEvent::Sent(Ok(_)) => CliAction::Receive,
        CliEvent::Sent(Err(_)) => CliAction::Stop,
        CliEvent::Answered(Ok(rsp)) => CliAction::Print(rsp.to_text()),
        CliEvent::Answered(Err(_)) => CliAction::Stop,
    }
}

} // verus!
