use fleet_commander::game::{EntityKind, EntityState, ShipClass, ShipInfo};
use fleet_commander::link::{chosen_ship, hello, is_goodbye, HandshakeError, Link, LinkAction, LinkStage};
use fleet_commander::net::{frame, payload_length, FrameError};
use fleet_commander::phase::LoginInfo;
use fleet_commander::protocol::{
    ClientMessage, GameStateSnapshot, PlayerInput, PlayerScore, ServerMessage, MAX_MESSAGE_SIZE,
    PROTOCOL_VERSION,
};
use fleet_commander::session::{
    alloc_player_id, check_version, filter_snapshot, handle_client_message, read_hello, Action,
    Refusal, Session, Stage, FIRST_PLAYER_ID,
};
use fleet_commander::single::Single;
use fleet_commander::tick::GameEvent;

fn prefix(bytes: &[u8]) -> [u8; 4] {
    [bytes[0], bytes[1], bytes[2], bytes[3]]
}

fn greeting(version: u32) -> ClientMessage {
    ClientMessage::Hello { version, username: "NOVA_7".to_string() }
}

fn login() -> LoginInfo {
    LoginInfo { username: "NOVA_7".to_string(), ship_class: ShipClass::Cruiser }
}

// ── Framing ───────────────────────────────────────────────────────────────────

#[test]
fn frames_are_read_back() {
    for len in [0usize, 1, 255, 256, 70_000, MAX_MESSAGE_SIZE] {
        let payload: Vec<u8> = (0..len).map(|i| (i % 251) as u8).collect();
        let bytes = frame(&payload);
        assert_eq!(bytes.len(), len + 4);
        assert_eq!(payload_length(prefix(&bytes)), Ok(len));
        assert_eq!(&bytes[4..], &payload[..]);
    }
}

#[test]
fn lengths_are_little_endian() {
    let bytes = frame(&vec![9u8; 0x0001_0203]);
    assert_eq!(prefix(&bytes), [3, 2, 1, 0]);
    assert_eq!(payload_length([0x10, 0x20, 0, 0]), Ok(0x2010));
}

#[test]
fn oversized_frames_are_refused() {
    let len = MAX_MESSAGE_SIZE as u32 + 1;
    assert_eq!(payload_length(len.to_le_bytes()), Err(FrameError::TooLarge { len }));
    assert_eq!(
        payload_length([0xff; 4]),
        Err(FrameError::TooLarge { len: u32::MAX })
    );
}

// ── The server's side ─────────────────────────────────────────────────────────

#[test]
fn versions_have_to_match() {
    assert!(check_version(PROTOCOL_VERSION).is_ok());
    match check_version(1) {
        Err(ServerMessage::Rejected { reason }) => {
            assert_eq!(reason, "protocol version mismatch: server=2 client=1");
        }
        _ => panic!("another version was let in"),
    }
    match check_version(u32::MAX) {
        Err(ServerMessage::Rejected { reason }) => {
            assert_eq!(reason, "protocol version mismatch: server=2 client=4294967295");
        }
        _ => panic!("another version was let in"),
    }
}

#[test]
fn hello_gives_the_callsign() {
    assert_eq!(read_hello(greeting(2)).unwrap(), "NOVA_7");
    assert!(matches!(read_hello(greeting(3)), Err(Refusal::VersionMismatch(_))));
    assert!(matches!(read_hello(ClientMessage::Goodbye), Err(Refusal::Unexpected)));
}

#[test]
fn ids_are_given_in_order() {
    let mut next = FIRST_PLAYER_ID;
    for id in 1..=100 {
        assert_eq!(alloc_player_id(&mut next), id);
    }
    next = u32::MAX;
    assert_eq!(alloc_player_id(&mut next), u32::MAX);
    assert_eq!(next, 0);
}

#[test]
fn a_connection_is_greeted_and_admitted() {
    let mut next = 5;
    let mut session = Session::new();
    match session.handle_client(ClientMessage::Ping, "Sector 7", &mut next) {
        Action::Send(ServerMessage::ServerInfo { server_name }) => {
            assert_eq!(server_name, "Sector 7");
        }
        _ => panic!("no name"),
    }
    assert_eq!(session.stage, Stage::Greeted);
    match session.handle_client(greeting(2), "Sector 7", &mut next) {
        Action::Admit(
            ServerMessage::Welcome { version, player_id, server_name },
            GameEvent::PlayerJoined { id, username },
        ) => {
            assert_eq!((version, player_id, id), (2, 5, 5));
            assert_eq!(server_name, "Sector 7");
            assert_eq!(username, "NOVA_7");
        }
        _ => panic!("not admitted"),
    }
    assert_eq!(session.stage, Stage::Joined(5));
    assert_eq!(next, 6);
    assert!(matches!(
        session.handle_client(ClientMessage::RequestRespawn, "Sector 7", &mut next),
        Action::Forward(GameEvent::RequestRespawn(5))
    ));
    assert!(matches!(session.disconnect(), Some(GameEvent::PlayerLeft(5))));
    assert_eq!(session.stage, Stage::Closed);
    assert!(session.disconnect().is_none());
}

#[test]
fn only_a_valid_hello_joins() {
    for first in [
        ClientMessage::Goodbye,
        ClientMessage::RequestRespawn,
        ClientMessage::SelfDestruct,
        ClientMessage::Input(PlayerInput::default()),
        ClientMessage::SelectShip { class: ShipClass::Scout },
    ] {
        let mut next = 1;
        let mut session = Session::new();
        assert!(matches!(
            session.handle_client(first, "x", &mut next),
            Action::Refuse(None)
        ));
        assert_eq!(session.stage, Stage::Closed);
        assert_eq!(next, 1);
        // What is closed stays closed.
        session.handle_client(greeting(2), "x", &mut next);
        assert_eq!(session.stage, Stage::Closed);
        assert_eq!(next, 1);
    }
    let mut next = 1;
    let mut session = Session::new();
    assert!(matches!(
        session.handle_client(greeting(9), "x", &mut next),
        Action::Refuse(Some(ServerMessage::Rejected { .. }))
    ));
    assert_eq!(next, 1);
}

#[test]
fn messages_become_events() {
    let input = PlayerInput { sequence: 12, ..PlayerInput::default() };
    match handle_client_message(ClientMessage::Input(input), 3) {
        Action::Forward(GameEvent::PlayerInput { id, input }) => {
            assert_eq!((id, input.sequence), (3, 12));
        }
        _ => panic!("lost"),
    }
    assert!(matches!(
        handle_client_message(ClientMessage::SelectShip { class: ShipClass::Carrier }, 3),
        Action::Forward(GameEvent::SelectShip { id: 3, class: ShipClass::Carrier })
    ));
    assert!(matches!(
        handle_client_message(ClientMessage::SelfDestruct, 3),
        Action::Forward(GameEvent::SelfDestruct(3))
    ));
    assert!(matches!(
        handle_client_message(ClientMessage::Goodbye, 3),
        Action::Leave(GameEvent::PlayerLeft(3))
    ));
    assert!(matches!(handle_client_message(greeting(2), 3), Action::Ignore));
    assert!(matches!(handle_client_message(ClientMessage::Ping, 3), Action::Ignore));
}

fn ship(id: u32, player_id: u32, cloaked: bool) -> EntityState {
    EntityState {
        id,
        kind: EntityKind::Ship,
        x: Single::whole(1),
        y: Single::whole(2),
        vx: Single::nought(),
        vy: Single::nought(),
        angle: Single::nought(),
        ship_info: Some(ShipInfo {
            player_id,
            class: ShipClass::Scout,
            hull: Single::whole(50),
            shields: Single::whole(30),
            fuel: Single::whole(200),
            cloaked,
            shields_on: !cloaked,
            torpedo_count: 6,
            phaser_locked: false,
        }),
    }
}

#[test]
fn cloaked_ships_are_not_sent() {
    let snapshot = GameStateSnapshot {
        tick: 8,
        entities: vec![ship(10, 1, true), ship(11, 2, false), ship(12, 3, true)],
        scores: vec![PlayerScore {
            player_id: 1,
            username: "NOVA_7".to_string(),
            kills: 1,
            deaths: 2,
            score: 3,
            ship_class: ShipClass::Scout,
            alive: true,
        }],
    };
    let ids = |viewer: u32| -> Vec<u32> {
        filter_snapshot(&snapshot, viewer).entities.iter().map(|e| e.id).collect()
    };
    assert_eq!(ids(1), vec![10, 11]);
    assert_eq!(ids(2), vec![11]);
    assert_eq!(ids(3), vec![11, 12]);
    let seen = filter_snapshot(&snapshot, 2);
    assert_eq!(seen.tick, 8);
    assert_eq!(seen.scores.len(), 1);
    assert_eq!(seen.scores[0].username, "NOVA_7");
}

// ── The client's side ─────────────────────────────────────────────────────────

#[test]
fn the_client_pings_and_greets() {
    let (mut link, first) = Link::open();
    assert!(matches!(first, ClientMessage::Ping));
    let info = ServerMessage::ServerInfo { server_name: "x".to_string() };
    assert_eq!(link.receive(&info).unwrap(), LinkAction::Introduce);
    match link.greet(&login()) {
        ClientMessage::Hello { version, username } => {
            assert_eq!(version, 2);
            assert_eq!(username, "NOVA_7");
        }
        _ => panic!("no greeting"),
    }
    let welcome = ServerMessage::Welcome {
        version: 2,
        player_id: 4,
        server_name: "x".to_string(),
    };
    assert_eq!(link.receive(&welcome).unwrap(), LinkAction::Enter);
    assert_eq!(link.stage, LinkStage::Open(4));
    let chat = ServerMessage::Chat { from: "a".to_string(), message: "b".to_string() };
    assert_eq!(link.receive(&chat).unwrap(), LinkAction::Relay);
    let bye = ServerMessage::Shutdown { reason: "night".to_string() };
    assert_eq!(link.receive(&bye).unwrap(), LinkAction::Close);
    assert_eq!(link.receive(&chat).unwrap(), LinkAction::Close);
}

#[test]
fn handshakes_of_one_version_succeed() {
    let mut next = 9;
    let mut session = Session::new();
    let (mut link, ping) = Link::open();
    let Action::Send(info) = session.handle_client(ping, "x", &mut next) else {
        panic!("no name");
    };
    assert_eq!(link.receive(&info).unwrap(), LinkAction::Introduce);
    let hello = link.greet(&login());
    let Action::Admit(welcome, _) = session.handle_client(hello, "x", &mut next) else {
        panic!("not admitted");
    };
    assert_eq!(link.receive(&welcome).unwrap(), LinkAction::Enter);
    assert_eq!(session.stage, Stage::Joined(9));
    assert_eq!(link.stage, LinkStage::Open(9));
}

#[test]
fn handshakes_can_fail() {
    let (mut link, _) = Link::open();
    link.greet(&login());
    let no = ServerMessage::Rejected { reason: "full".to_string() };
    match link.receive(&no) {
        Err(HandshakeError::Rejected { reason }) => assert_eq!(reason, "full"),
        _ => panic!("let in"),
    }
    assert_eq!(link.stage, LinkStage::Closed);

    let (mut link, _) = Link::open();
    link.greet(&login());
    let odd = ServerMessage::ServerInfo { server_name: "x".to_string() };
    assert!(matches!(link.receive(&odd), Err(HandshakeError::Unexpected)));
}

#[test]
fn logins_become_messages() {
    assert!(matches!(
        chosen_ship(&login()),
        ClientMessage::SelectShip { class: ShipClass::Cruiser }
    ));
    assert!(matches!(hello(&login()), ClientMessage::Hello { version: 2, .. }));
    assert!(is_goodbye(&ClientMessage::Goodbye));
    assert!(!is_goodbye(&ClientMessage::Ping));
}
