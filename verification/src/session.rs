//! What the server makes of a client's messages, from the first one on.
use vstd::prelude::*;
use vstd::string::*;

use crate::game::{EntityKind, EntityState, PlayerId};
use crate::protocol::{
    copy_scores, ClientMessage, GameStateSnapshot, ServerMessage, PROTOCOL_VERSION,
};
use crate::text::{digits, push_number};
use crate::tick::GameEvent;
use crate::world::{counted, next_id};

verus! {

/// The id of the first player.
pub const FIRST_PLAYER_ID: PlayerId = 1;

/// The id that a counter gives away, and what it holds then.
pub open spec fn allocated(next: PlayerId) -> (PlayerId, PlayerId) {
    (next, next_id(next))
}

/// The ids that a counter gives away one after the other, starting with the first player's, and
/// what it holds then.
pub open spec fn allocations(n: nat) -> (Seq<PlayerId>, PlayerId)
    decreases n,
{
    if n == 0 {
        (Seq::empty(), FIRST_PLAYER_ID)
    } else {
        let (ids, next) = allocations((n - 1) as nat);
        (ids.push(allocated(next).0), allocated(next).1)
    }
}

/// Players are numbered 1, 2, 3 and so on: no id is 0, and none is given twice before every number
/// has been used.
pub proof fn law_player_ids_are_given_once(n: nat)
    requires
        n <= u32::MAX,
    ensures
        allocations(n).0 == Seq::new(n, |i: int| (i + 1) as u32),
        allocations(n).0.no_duplicates(),
        !allocations(n).0.contains(0),
        n < u32::MAX ==> allocations(n).1 == n + 1,
    decreases n,
{
    if n > 0 {
        law_player_ids_are_given_once((n - 1) as nat);
    }
    assert(allocations(n).0 =~= Seq::new(n, |i: int| (i + 1) as u32));
}

/// Gives away the next player id.
pub fn alloc_player_id(next: &mut PlayerId) -> (id: PlayerId)
    ensures
        (id, *final(next)) == allocated(*old(next)),
{
    let id: PlayerId = *next;
    *next = counted(id);
    id
}

/// The text that tells a client of another version why it is refused.
pub open spec fn mismatch_text(version: u32) -> Seq<char> {
    "protocol version mismatch: server="@ + digits(PROTOCOL_VERSION as nat) + " client="@ + digits(
        version as nat,
    )
}

/// Whether a message tells a client of the given version that it is refused.
pub open spec fn refuses(msg: ServerMessage, version: u32) -> bool {
    msg matches ServerMessage::Rejected { reason } && reason@ == mismatch_text(version)
}

/// Refuses a client whose protocol version is not the server's.
pub fn check_version(version: u32) -> (r: Result<(), ServerMessage>)
    ensures
        r is Ok <==> version == PROTOCOL_VERSION,
        r matches Err(msg) ==> refuses(msg, version),
{
    if version != PROTOCOL_VERSION {
        let mut reason: String = String::from_str("protocol version mismatch: server=");
        push_number(&mut reason, PROTOCOL_VERSION as u64);
        reason.append(" client=");
        push_number(&mut reason, version as u64);
        Err(ServerMessage::Rejected { reason })
    } else {
        Ok(())
    }
}

/// Why a connection ends before the player has joined.
#[derive(Debug)]
pub enum Refusal {
    /// The client speaks another version and is to be told so.
    VersionMismatch(ServerMessage),
    /// The client sent something else than was expected.
    Unexpected,
}

/// Reads the callsign out of the message that has to be `Hello`.
pub fn read_hello(msg: ClientMessage) -> (r: Result<String, Refusal>)
    ensures
        match msg {
            ClientMessage::Hello { version, username } => if version == PROTOCOL_VERSION {
                r == Ok::<String, Refusal>(username)
            } else {
                r matches Err(Refusal::VersionMismatch(m)) && refuses(m, version)
            },
            _ => r == Err::<String, Refusal>(Refusal::Unexpected),
        },
{
    match msg {
        ClientMessage::Hello { version, username } => match check_version(version) {
            Ok(()) => Ok(username),
            Err(m) => Err(Refusal::VersionMismatch(m)),
        },
        _ => Err(Refusal::Unexpected),
    }
}

/// How far a connection has come.
#[derive(Debug, Clone, Copy, PartialEq, Eq, Structural)]
pub enum Stage {
    /// Nothing has been read yet.
    Fresh,
    /// The server's name has been sent; `Hello` has to follow.
    Greeted,
    /// The player has joined.
    Joined(PlayerId),
    /// The connection is to be closed.
    Closed,
}

/// What is to be done after a message.
#[derive(Debug)]
pub enum Action {
    /// Send the message.
    Send(ServerMessage),
    /// Send the welcome, and hand the event to the game.
    Admit(ServerMessage, GameEvent),
    /// Hand the event to the game.
    Forward(GameEvent),
    /// Close the connection of a client that never joined, after the message if there is one.
    Refuse(Option<ServerMessage>),
    /// Take the player out of the game, and close the connection.
    Leave(GameEvent),
    /// Nothing.
    Ignore,
}

/// How far a connection has come after a message; `id` is the id that a player would get.
pub open spec fn next_stage(stage: Stage, msg: ClientMessage, id: PlayerId) -> Stage {
    match stage {
        Stage::Fresh => if msg is Ping {
            Stage::Greeted
        } else if is_valid_hello(msg) {
            Stage::Joined(id)
        } else {
            Stage::Closed
        },
        Stage::Greeted => if is_valid_hello(msg) {
            Stage::Joined(id)
        } else {
            Stage::Closed
        },
        Stage::Joined(player) => if msg is Goodbye {
            Stage::Closed
        } else {
            stage
        },
        Stage::Closed => Stage::Closed,
    }
}

/// Whether a message is a greeting of the server's own version.
pub open spec fn is_valid_hello(msg: ClientMessage) -> bool {
    msg matches ClientMessage::Hello { version, username } && version == PROTOCOL_VERSION
}

/// Whether a message welcomes a player.
pub open spec fn welcomes(msg: ServerMessage, id: PlayerId, server_name: Seq<char>) -> bool {
    msg matches ServerMessage::Welcome { version, player_id, server_name: n } && version
        == PROTOCOL_VERSION && player_id == id && n@ == server_name
}

/// Whether a message tells the server's name.
pub open spec fn introduces(msg: ServerMessage, server_name: Seq<char>) -> bool {
    msg matches ServerMessage::ServerInfo { server_name: n } && n@ == server_name
}

/// Whether an action is the right one for the first messages of a client.
pub open spec fn opens(
    stage: Stage,
    msg: ClientMessage,
    id: PlayerId,
    server_name: Seq<char>,
    act: Action,
) -> bool {
    match msg {
        ClientMessage::Ping => if stage == Stage::Fresh {
            act matches Action::Send(m) && introduces(m, server_name)
        } else {
            act == Action::Refuse(None)
        },
        ClientMessage::Hello { version, username } => if version == PROTOCOL_VERSION {
            act matches Action::Admit(m, e) && welcomes(m, id, server_name) && e
                == (GameEvent::PlayerJoined { id, username })
        } else {
            act matches Action::Refuse(Some(m)) && refuses(m, version)
        },
        _ => act == Action::Refuse(None),
    }
}

/// What is done with the message of a player who has joined.
pub open spec fn forwarded(msg: ClientMessage, id: PlayerId) -> Action {
    match msg {
        ClientMessage::Input(input) => Action::Forward(GameEvent::PlayerInput { id, input }),
        ClientMessage::SelectShip { class } => Action::Forward(
            GameEvent::SelectShip { id, class },
        ),
        ClientMessage::RequestRespawn => Action::Forward(GameEvent::RequestRespawn(id)),
        ClientMessage::SelfDestruct => Action::Forward(GameEvent::SelfDestruct(id)),
        ClientMessage::Goodbye => Action::Leave(GameEvent::PlayerLeft(id)),
        ClientMessage::Hello { version, username } => Action::Ignore,
        ClientMessage::Ping => Action::Ignore,
    }
}

/// Turns a player's message into an event of the game; a greeting that comes late is ignored.
pub fn handle_client_message(msg: ClientMessage, player_id: PlayerId) -> (act: Action)
    ensures
        act == forwarded(msg, player_id),
{
    match msg {
        ClientMessage::Input(input) => Action::Forward(
            GameEvent::PlayerInput { id: player_id, input },
        ),
        ClientMessage::SelectShip { class } => Action::Forward(
            GameEvent::SelectShip { id: player_id, class },
        ),
        ClientMessage::RequestRespawn => Action::Forward(GameEvent::RequestRespawn(player_id)),
        ClientMessage::SelfDestruct => Action::Forward(GameEvent::SelfDestruct(player_id)),
        ClientMessage::Goodbye => Action::Leave(GameEvent::PlayerLeft(player_id)),
        ClientMessage::Hello { version: _, username: _ } => Action::Ignore,
        ClientMessage::Ping => Action::Ignore,
    }
}

/// The server's side of one connection.
#[derive(Debug)]
pub struct Session {
    pub stage: Stage,
}

impl Session {
    pub fn new() -> (r: Session)
        ensures
            r.stage == Stage::Fresh,
    {
        Session { stage: Stage::Fresh }
    }

    fn welcome(&mut self, username: String, server_name: &str, next: &mut PlayerId) -> (act: Action)
        ensures
            final(self).stage == Stage::Joined(*old(next)),
            *final(next) == next_id(*old(next)),
            act matches Action::Admit(m, e) && welcomes(m, *old(next), server_name@) && e
                == (GameEvent::PlayerJoined { id: *old(next), username }),
    {
        let id: PlayerId = alloc_player_id(next);
        self.stage = Stage::Joined(id);
        Action::Admit(
            ServerMessage::Welcome {
                version: PROTOCOL_VERSION,
                player_id: id,
                server_name: String::from_str(server_name),
            },
            GameEvent::PlayerJoined { id, username },
        )
    }

    /// Takes a message of the client; `next` is the next player id to give away.
    pub fn handle_client(
        &mut self,
        msg: ClientMessage,
        server_name: &str,
        next: &mut PlayerId,
    ) -> (act: Action)
        ensures
            final(self).stage == next_stage(old(self).stage, msg, *old(next)),
            match old(self).stage {
                Stage::Joined(id) => act == forwarded(msg, id),
                Stage::Closed => act == Action::Ignore,
                _ => opens(old(self).stage, msg, *old(next), server_name@, act),
            },
            *final(next) == if old(self).stage !is Joined && final(self).stage is Joined {
                next_id(*old(next))
            } else {
                *old(next)
            },
    {
        match self.stage {
            Stage::Fresh => match msg {
                ClientMessage::Ping => {
                    self.stage = Stage::Greeted;
                    Action::Send(
                        ServerMessage::ServerInfo { server_name: String::from_str(server_name) },
                    )
                },
                other => self.greet(other, server_name, next),
            },
            Stage::Greeted => self.greet(msg, server_name, next),
            Stage::Joined(id) => {
                let act: Action = handle_client_message(msg, id);
                if let Action::Leave(_) = act {
                    self.stage = Stage::Closed;
                }
                act
            },
            Stage::Closed => Action::Ignore,
        }
    }

    fn greet(&mut self, msg: ClientMessage, server_name: &str, next: &mut PlayerId) -> (act: Action)
        requires
            old(self).stage == Stage::Greeted || old(self).stage == Stage::Fresh && !(msg is Ping),
        ensures
            final(self).stage == next_stage(old(self).stage, msg, *old(next)),
            opens(old(self).stage, msg, *old(next), server_name@, act),
            *final(next) == if final(self).stage is Joined {
                next_id(*old(next))
            } else {
                *old(next)
            },
    {
        match read_hello(msg) {
            Ok(username) => self.welcome(username, server_name, next),
            Err(Refusal::VersionMismatch(m)) => {
                self.stage = Stage::Closed;
                Action::Refuse(Some(m))
            },
            Err(Refusal::Unexpected) => {
                self.stage = Stage::Closed;
                Action::Refuse(None)
            },
        }
    }

    /// The connection broke; tells the event for the game, if the player had joined.
    pub fn disconnect(&mut self) -> (r: Option<GameEvent>)
        ensures
            final(self).stage == Stage::Closed,
            r == match old(self).stage {
                Stage::Joined(id) => Some(GameEvent::PlayerLeft(id)),
                _ => None,
            },
    {
        let r: Option<GameEvent> = match self.stage {
            Stage::Joined(id) => Some(GameEvent::PlayerLeft(id)),
            _ => None,
        };
        self.stage = Stage::Closed;
        r
    }
}

/// How far a connection has come after several messages, where every newcomer would get `id`.
pub open spec fn stage_after(stage: Stage, msgs: Seq<ClientMessage>, id: PlayerId) -> Stage
    decreases msgs.len(),
{
    if msgs.len() == 0 {
        stage
    } else {
        next_stage(stage_after(stage, msgs.drop_last(), id), msgs.last(), id)
    }
}

/// A player joins only through a greeting of the server's own version, which is the first message
/// or follows a ping.
pub proof fn law_only_a_valid_hello_joins(msgs: Seq<ClientMessage>, id: PlayerId)
    ensures
        stage_after(Stage::Fresh, msgs, id) is Joined ==> msgs.len() > 0 && (is_valid_hello(msgs[0])
            || msgs[0] is Ping && msgs.len() > 1 && is_valid_hello(msgs[1])),
        stage_after(Stage::Fresh, msgs, id) is Greeted ==> msgs.len() == 1 && msgs[0] is Ping,
        stage_after(Stage::Fresh, msgs, id) is Fresh ==> msgs.len() == 0,
    decreases msgs.len(),
{
    if msgs.len() > 0 {
        law_only_a_valid_hello_joins(msgs.drop_last(), id);
    }
}

/// A connection that is closed stays closed.
pub proof fn law_closed_stays_closed(msgs: Seq<ClientMessage>, id: PlayerId)
    ensures
        stage_after(Stage::Closed, msgs, id) == Stage::Closed,
    decreases msgs.len(),
{
    if msgs.len() > 0 {
        law_closed_stays_closed(msgs.drop_last(), id);
    }
}

/// Whether a viewer may be told of an entity: a cloaked ship only if it is the viewer's own.
pub open spec fn may_see(e: EntityState, viewer: PlayerId) -> bool {
    e.kind == EntityKind::Ship ==> (e.ship_info matches Some(info) ==> info.player_id == viewer
        || !info.cloaked)
}

/// The entities that a viewer may be told of, in their order.
pub open spec fn seen(es: Seq<EntityState>, viewer: PlayerId) -> Seq<EntityState>
    decreases es.len(),
{
    if es.len() == 0 {
        Seq::empty()
    } else if may_see(es.last(), viewer) {
        seen(es.drop_last(), viewer).push(es.last())
    } else {
        seen(es.drop_last(), viewer)
    }
}

/// No player is ever told of another player's cloaked ship, and of every other entity each player
/// is told.
pub proof fn law_cloaked_ships_are_not_sent(es: Seq<EntityState>, viewer: PlayerId, e: EntityState)
    ensures
        seen(es, viewer).contains(e) <==> es.contains(e) && may_see(e, viewer),
        e.kind == EntityKind::Ship ==> (e.ship_info matches Some(info) ==> info.cloaked
            && info.player_id != viewer ==> !seen(es, viewer).contains(e)),
        es.contains(e) && (e.kind != EntityKind::Ship || e.ship_info is None || !(
        e.ship_info->0).cloaked || (e.ship_info->0).player_id == viewer) ==> seen(
            es,
            viewer,
        ).contains(e),
    decreases es.len(),
{
    if es.len() > 0 {
        let front = es.drop_last();
        law_cloaked_ships_are_not_sent(front, viewer, e);
        let s = seen(es, viewer);
        let f = seen(front, viewer);
        if es.contains(e) {
            let k = choose|k: int| 0 <= k < es.len() && es[k] == e;
            if k < front.len() {
                assert(front[k] == e);
            }
        }
        if front.contains(e) {
            let k = choose|k: int| 0 <= k < front.len() && front[k] == e;
            assert(es[k] == e);
        }
        if f.contains(e) {
            let k = choose|k: int| 0 <= k < f.len() && f[k] == e;
            assert(s[k] == e);
        }
        if s.contains(e) {
            let k = choose|k: int| 0 <= k < s.len() && s[k] == e;
            if k < f.len() {
                assert(f[k] == e);
            }
        }
        if may_see(es.last(), viewer) {
            assert(s[s.len() - 1] == es.last());
        }
        assert(es[es.len() - 1] == es.last());
    }
}

/// The snapshot without the cloaked ships that the viewer must not see.
pub fn filter_snapshot(snapshot: &GameStateSnapshot, viewer: PlayerId) -> (r: GameStateSnapshot)
    ensures
        r.tick == snapshot.tick,
        r.entities@ == seen(snapshot.entities@, viewer),
        r.scores@ == snapshot.scores@,
{
    let mut entities: Vec<EntityState> = Vec::new();
    let mut i: usize = 0;
    while i < snapshot.entities.len()
        invariant
            i <= snapshot.entities.len(),
            entities@ == seen(snapshot.entities@.take(i as int), viewer),
        decreases snapshot.entities.len() - i,
    {
        let e: EntityState = snapshot.entities[i];
        let visible: bool = if e.kind != EntityKind::Ship {
            true
        } else {
            match e.ship_info {
                Some(info) => info.player_id == viewer || !info.cloaked,
                None => true,
            }
        };
        proof {
            assert(snapshot.entities@.take(i + 1).drop_last() =~= snapshot.entities@.take(
                i as int,
            ));
        }
        if visible {
            entities.push(e);
        }
        i = i + 1;
    }
    proof {
        assert(snapshot.entities@.take(i as int) =~= snapshot.entities@);
    }
    GameStateSnapshot { tick: snapshot.tick, entities, scores: copy_scores(&snapshot.scores) }
}

} // verus!
