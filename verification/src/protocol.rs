//! Messages between client and server.
use vstd::prelude::*;

use crate::game::{EntityState, PlayerId, ShipClass};
use crate::single::{zero, Single};

verus! {

/// Wire-protocol version; client and server must match.
pub const PROTOCOL_VERSION: u32 = 2;

/// Maximum framed message size, one mebibyte.
pub const MAX_MESSAGE_SIZE: usize = 1024 * 1024;

/// Messages the client sends to the server.
#[derive(Debug)]
pub enum ClientMessage {
    /// First message after the handshake of the transport.
    Hello { version: u32, username: String },
    /// Sent once per frame with the current control state.
    Input(PlayerInput),
    /// Request a different ship class, honoured only while dead.
    SelectShip { class: ShipClass },
    /// Request to respawn after death.
    RequestRespawn,
    /// The self-destruct countdown has run out.
    SelfDestruct,
    /// Graceful disconnect.
    Goodbye,
    /// Asks the server for its display name, before `Hello`.
    Ping,
}

/// Control state sent every client frame.
#[derive(Debug, Clone, Copy)]
pub struct PlayerInput {
    pub thrust: bool,
    pub reverse_thrust: bool,
    pub turn_left: bool,
    pub turn_right: bool,
    /// Fire a torpedo.
    pub fire_primary: bool,
    /// Fire the phaser beam.
    pub fire_phaser: bool,
    /// Engage the cloaking device; honoured only for classes that have one.
    pub cloak_active: bool,
    /// Desired shield state.
    pub shields_active: bool,
    /// When present, the heading is set to this angle, whatever the turn keys say.
    pub aim_angle: Option<Single>,
    /// Angle from the ship to the mouse cursor.
    pub mouse_angle: Single,
    /// Distance from the ship to the mouse cursor.
    pub mouse_distance: Single,
    /// Increasing counter; inputs that do not raise it are ignored.
    pub sequence: u32,
}

/// The controls at rest.
pub open spec fn idle_input() -> PlayerInput {
    PlayerInput {
        thrust: false,
        reverse_thrust: false,
        turn_left: false,
        turn_right: false,
        fire_primary: false,
        fire_phaser: false,
        cloak_active: false,
        shields_active: false,
        aim_angle: None,
        mouse_angle: zero(),
        mouse_distance: zero(),
        sequence: 0,
    }
}

impl Default for PlayerInput {
    fn default() -> (r: PlayerInput)
        ensures
            r == idle_input(),
    {
        PlayerInput {
            thrust: false,
            reverse_thrust: false,
            turn_left: false,
            turn_right: false,
            fire_primary: false,
            fire_phaser: false,
            cloak_active: false,
            shields_active: false,
            aim_angle: None,
            mouse_angle: Single::nought(),
            mouse_distance: Single::nought(),
            sequence: 0,
        }
    }
}

/// Messages the server sends to a client.
#[derive(Debug)]
pub enum ServerMessage {
    /// Successful handshake response; assigns the player's id.
    Welcome { version: u32, player_id: PlayerId, server_name: String },
    /// The server refused the connection.
    Rejected { reason: String },
    /// Full snapshot of the world.
    GameState(GameStateSnapshot),
    /// A player was destroyed.
    PlayerDied { victim: PlayerId, killer: Option<PlayerId>, self_destruct: bool },
    /// Text message from the server.
    Chat { from: String, message: String },
    /// The server is shutting down.
    Shutdown { reason: String },
    /// Response to [`ClientMessage::Ping`].
    ServerInfo { server_name: String },
}

/// Complete world snapshot broadcast to every client each tick.
#[derive(Debug)]
pub struct GameStateSnapshot {
    pub tick: u64,
    pub entities: Vec<EntityState>,
    pub scores: Vec<PlayerScore>,
}

/// One row of the scoreboard.
#[derive(Debug)]
pub struct PlayerScore {
    pub player_id: PlayerId,
    pub username: String,
    pub kills: u32,
    pub deaths: u32,
    pub score: u32,
    pub ship_class: ShipClass,
    pub alive: bool,
}

impl Clone for PlayerScore {
    fn clone(&self) -> (r: PlayerScore)
        ensures
            r == *self,
    {
        PlayerScore {
            player_id: self.player_id,
            username: self.username.clone(),
            kills: self.kills,
            deaths: self.deaths,
            score: self.score,
            ship_class: self.ship_class,
            alive: self.alive,
        }
    }
}

/// A copy of all rows, in the same order.
pub fn copy_scores(scores: &Vec<PlayerScore>) -> (r: Vec<PlayerScore>)
    ensures
        r@ == scores@,
{
    let mut r: Vec<PlayerScore> = Vec::new();
    let mut i: usize = 0;
    while i < scores.len()
        invariant
            i <= scores.len(),
            r@ == scores@.take(i as int),
        decreases scores.len() - i,
    {
        r.push(scores[i].clone());
        assert(scores@.take(i + 1) == scores@.take(i as int).push(scores@[i as int]));
        i = i + 1;
    }
    assert(scores@.take(scores@.len() as int) == scores@);
    r
}

} // verus!
