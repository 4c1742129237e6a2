//! The client's side of a connection: what it sends, and what it makes of the replies.
use vstd::prelude::*;
use vstd::string::*;

use crate::game::PlayerId;
use crate::phase::LoginInfo;
use crate::protocol::{ClientMessage, ServerMessage, PROTOCOL_VERSION};

verus! {

/// Why the server did not let a player in.
#[derive(Debug)]
pub enum HandshakeError {
    /// The server refused the connection.
    Rejected { reason: String },
    /// The reply was neither a welcome nor a refusal.
    Unexpected,
}

/// How far a client's connection has come.
#[derive(Debug, Clone, Copy, PartialEq, Eq, Structural)]
pub enum LinkStage {
    /// The server's name has been asked for.
    Pinged,
    /// The greeting has been sent.
    Greeted,
    /// The player is in the game.
    Open(PlayerId),
    /// The connection is over.
    Closed,
}

/// What a client does with a message of the server.
#[derive(Debug, Clone, Copy, PartialEq, Eq, Structural)]
pub enum LinkAction {
    /// Show the message, and wait for the login.
    Introduce,
    /// Show the message, and tell the server which ship was chosen.
    Enter,
    /// Show the message.
    Relay,
    /// Show the message, and close the connection.
    Close,
}

/// How far a connection has come after a message of the server.
pub open spec fn link_after(stage: LinkStage, msg: ServerMessage) -> LinkStage {
    match stage {
        LinkStage::Pinged => LinkStage::Pinged,
        LinkStage::Greeted => match msg {
            ServerMessage::Welcome { version, player_id, server_name } => LinkStage::Open(
                player_id,
            ),
            _ => LinkStage::Closed,
        },
        LinkStage::Open(id) => if msg is Shutdown {
            LinkStage::Closed
        } else {
            stage
        },
        LinkStage::Closed => LinkStage::Closed,
    }
}

/// The greeting of a player who has logged in.
pub fn hello(login: &LoginInfo) -> (r: ClientMessage)
    ensures
        r == (ClientMessage::Hello { version: PROTOCOL_VERSION, username: login.username }),
{
    ClientMessage::Hello { version: PROTOCOL_VERSION, username: login.username.clone() }
}

/// The choice of the ship that a player has logged in with.
pub fn chosen_ship(login: &LoginInfo) -> (r: ClientMessage)
    ensures
        r == (ClientMessage::SelectShip { class: login.ship_class }),
{
    ClientMessage::SelectShip { class: login.ship_class }
}

/// Whether a message to the server ends the connection.
pub fn is_goodbye(msg: &ClientMessage) -> (r: bool)
    ensures
        r == (*msg is Goodbye),
{
    match msg {
        ClientMessage::Goodbye => true,
        _ => false,
    }
}

/// The client's side of one connection.
#[derive(Debug)]
pub struct Link {
    pub stage: LinkStage,
}

impl Link {
    /// A connection whose first message is the question for the server's name.
    pub fn open() -> (r: (Link, ClientMessage))
        ensures
            r.0.stage == LinkStage::Pinged,
            r.1 == ClientMessage::Ping,
    {
        (Link { stage: LinkStage::Pinged }, ClientMessage::Ping)
    }

    /// The player has logged in: gives the greeting.
    pub fn greet(&mut self, login: &LoginInfo) -> (r: ClientMessage)
        ensures
            final(self).stage == LinkStage::Greeted,
            r == (ClientMessage::Hello { version: PROTOCOL_VERSION, username: login.username }),
    {
        self.stage = LinkStage::Greeted;
        hello(login)
    }

    /// Takes a message of the server.
    pub fn receive(&mut self, msg: &ServerMessage) -> (r: Result<LinkAction, HandshakeError>)
        ensures
            final(self).stage == link_after(old(self).stage, *msg),
            match old(self).stage {
                LinkStage::Pinged => r == Ok::<LinkAction, HandshakeError>(LinkAction::Introduce),
                LinkStage::Greeted => match *msg {
                    ServerMessage::Welcome { version, player_id, server_name } => r == Ok::<
                        LinkAction,
                        HandshakeError,
                    >(LinkAction::Enter),
                    ServerMessage::Rejected { reason } => r == Err::<LinkAction, HandshakeError>(
                        HandshakeError::Rejected { reason },
                    ),
                    _ => r == Err::<LinkAction, HandshakeError>(HandshakeError::Unexpected),
                },
                LinkStage::Open(id) => r == Ok::<LinkAction, HandshakeError>(
                    if *msg is Shutdown {
                        LinkAction::Close
                    } else {
                        LinkAction::Relay
                    },
                ),
                LinkStage::Closed => r == Ok::<LinkAction, HandshakeError>(LinkAction::Close),
            },
    {
        match self.stage {
            LinkStage::Pinged => Ok(LinkAction::Introduce),
            LinkStage::Greeted => match msg {
                ServerMessage::Welcome { version: _, player_id, server_name: _ } => {
                    self.stage = LinkStage::Open(*player_id);
                    Ok(LinkAction::Enter)
                },
                ServerMessage::Rejected { reason } => {
                    self.stage = LinkStage::Closed;
                    Err(HandshakeError::Rejected { reason: reason.clone() })
                },
                _ => {
                    self.stage = LinkStage::Closed;
                    Err(HandshakeError::Unexpected)
                },
            },
            LinkStage::Open(_) => match msg {
                ServerMessage::Shutdown { reason: _ } => {
                    self.stage = LinkStage::Closed;
                    Ok(LinkAction::Close)
                },
                _ => Ok(LinkAction::Relay),
            },
            LinkStage::Closed => Ok(LinkAction::Close),
        }
    }
}

} // verus!
