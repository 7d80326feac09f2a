use relay::action::ServerAction;
use relay::server::{EventError, PeerInfo, Server, ServerEvent};
use relay::user::User;
use relay::world::{Envelope, World};

fn connect(server: &mut Server, id: u32) {
    server
        .process_next_event(ServerEvent::Connection { sender_id: id })
        .expect("Failed to process event");
}

fn login(server: &mut Server, id: u32, seed: u32, name: &str) -> Vec<Envelope> {
    connect(server, id);
    server
        .process_next_event(ServerEvent::Action {
            sender_id: id,
            action: ServerAction::Login {
                seed,
                name: name.as_bytes().to_vec(),
            },
        })
        .expect("Failed to process event")
}

fn transform(position: (f32, f32, f32), velocity: (f32, f32, f32), rotation: (f32, f32, f32))
    -> ServerAction {
    ServerAction::Transform {
        id: 0,
        position: (position.0.to_bits(), position.1.to_bits(), position.2.to_bits()),
        velocity: (velocity.0.to_bits(), velocity.1.to_bits(), velocity.2.to_bits()),
        rotation: (rotation.0.to_bits(), rotation.1.to_bits(), rotation.2.to_bits()),
    }
}

#[test]
fn establishes_connection() {
    let mut server = Server::new();
    assert_eq!(0, server.connections.len());
    server
        .process_next_event(ServerEvent::Connection { sender_id: 444 })
        .expect("Failed to process event");
    assert!(server.connections.contains_key(444));
}

#[test]
fn logs_in_user_to_correct_world_seed() {
    let mut server = Server::new();
    let player = 1111;
    let other = 1112;
    let _ = login(&mut server, player, 0x12345678, "Ted Logan");
    let out = login(&mut server, other, 0x12345678, "Bill Preston");

    assert!(!out.is_empty(), "No message in channel");
    assert_eq!(out[0].to, player);
    let expected_bytes = ServerAction::Join {
        id: other,
        name: b"Bill Preston".to_vec(),
    }
    .encode()
    .unwrap();
    let bytes = out[0].action.encode().unwrap();
    assert_eq!(expected_bytes, bytes);
}

#[test]
fn relay_scenario_two_members() {
    let mut server = Server::new();
    let a = 10;
    let b = 20;

    // A logs in with seed 42: empty roster, nothing received.
    let out = login(&mut server, a, 42, "Ted");
    assert!(out.is_empty());

    // B logs in with seed 42: A hears Join(B); B gets the roster snapshot,
    // Join(A) followed by A's zeroed transform.
    let out = login(&mut server, b, 42, "Bill");
    assert_eq!(out.len(), 3);
    assert_eq!(out[0].to, a);
    assert_eq!(
        out[0].action,
        ServerAction::Join { id: b, name: b"Bill".to_vec() }
    );
    assert_eq!(out[1].to, b);
    assert_eq!(
        out[1].action,
        ServerAction::Join { id: a, name: b"Ted".to_vec() }
    );
    assert_eq!(out[2].to, b);
    assert_eq!(
        out[2].action,
        ServerAction::Transform { id: a, position: (0, 0, 0), velocity: (0, 0, 0), rotation: (0, 0, 0) }
    );

    // A moves: B alone receives the update, relayed under A's identifier.
    let mv = transform((1.0, 2.0, 3.0), (0.5, 0.5, 0.5), (0.0, 0.0, 0.0));
    let out = server
        .process_next_event(ServerEvent::Action { sender_id: a, action: mv.clone() })
        .expect("Failed to process event");
    assert_eq!(out.len(), 1);
    assert_eq!(out[0].to, b);
    match (&out[0].action, &mv) {
        (
            ServerAction::Transform { id, position, velocity, rotation },
            ServerAction::Transform { position: ep, velocity: ev, rotation: er, .. },
        ) => {
            assert_eq!(*id, a);
            assert_eq!(position, ep);
            assert_eq!(velocity, ev);
            assert_eq!(rotation, er);
        }
        _ => panic!("Wrong relayed action"),
    }

    // B disconnects: A hears Leave(B); the world lives on with A in it.
    let out = server
        .process_next_event(ServerEvent::Disconnection {
            sender_id: b,
            code: 1000,
            reason: String::new(),
        })
        .expect("Failed to process event");
    assert_eq!(out.len(), 1);
    assert_eq!(out[0].to, a);
    assert_eq!(out[0].action, ServerAction::Leave { id: b });
    assert!(server.worlds.contains_key(42));

    // A disconnects: the world winks out of existence.
    let out = server
        .process_next_event(ServerEvent::Disconnection {
            sender_id: a,
            code: 1000,
            reason: String::new(),
        })
        .expect("Failed to process event");
    assert!(out.is_empty());
    assert!(!server.worlds.contains_key(42));
}

#[test]
fn disconnecting_unknown_connection_is_harmless() {
    let mut server = Server::new();
    let _ = login(&mut server, 7, 1, "only");

    let r = server.process_next_event(ServerEvent::Disconnection {
        sender_id: 99,
        code: 1006,
        reason: "gone".to_string(),
    });
    assert!(matches!(r, Err(EventError::NotLoggedIn)));
    // No world appeared or vanished, and the logged-in user is untouched.
    assert!(server.worlds.contains_key(1));
    assert!(server.user_worlds.contains_key(7));
    assert!(server.connections.contains_key(7));
}

#[test]
fn world_lifecycle_is_lazy() {
    let mut server = Server::new();
    assert!(!server.worlds.contains_key(5));

    let _ = login(&mut server, 1, 5, "first");
    assert!(server.worlds.contains_key(5));
    let _ = login(&mut server, 2, 6, "second");
    assert!(server.worlds.contains_key(6));

    // Logout of the sole member of world 5 destroys it at once; world 6
    // stays live.
    let out = server
        .process_next_event(ServerEvent::Action { sender_id: 1, action: ServerAction::Logout })
        .expect("Failed to process event");
    assert!(out.is_empty());
    assert!(!server.worlds.contains_key(5));
    assert!(server.worlds.contains_key(6));
    // Logout ends the session but keeps the connection itself.
    assert!(server.connections.contains_key(1));
    assert!(!server.user_worlds.contains_key(1));

    // A reused seed starts an empty world: the newcomer receives nothing.
    let out = login(&mut server, 3, 5, "third");
    assert!(out.is_empty());
    assert!(server.worlds.contains_key(5));
}

#[test]
fn broadcast_excludes_sender_for_all_roster_sizes() {
    for n in [1u32, 2, 7] {
        let mut world = World::new(9);
        for i in 0..n {
            world.users.insert(i, User::new(vec![b'u']));
        }
        let out = world.broadcast(&ServerAction::Leave { id: 0 }, 0);
        assert_eq!(out.len(), (n - 1) as usize);
        for env in &out {
            assert_ne!(env.to, 0);
        }
    }
}

#[test]
fn move_before_login_is_an_error() {
    let mut server = Server::new();
    connect(&mut server, 3);
    let r = server.process_next_event(ServerEvent::Action {
        sender_id: 3,
        action: transform((1.0, 1.0, 1.0), (0.0, 0.0, 0.0), (0.0, 0.0, 0.0)),
    });
    assert!(matches!(r, Err(EventError::NotLoggedIn)));
}

#[test]
fn login_without_connection_is_an_error() {
    let mut server = Server::new();
    let r = server.process_next_event(ServerEvent::Action {
        sender_id: 12,
        action: ServerAction::Login { seed: 3, name: b"ghost".to_vec() },
    });
    assert!(matches!(r, Err(EventError::UnknownConnection)));
    // No world was created on the failed login.
    assert!(!server.worlds.contains_key(3));
}

#[test]
fn server_origin_action_from_client_is_an_error() {
    let mut server = Server::new();
    let _ = login(&mut server, 4, 8, "abuser");
    let r = server.process_next_event(ServerEvent::Action {
        sender_id: 4,
        action: ServerAction::Join { id: 4, name: b"abuser".to_vec() },
    });
    assert!(matches!(r, Err(EventError::UnsupportedAction)));
}

#[test]
fn logout_before_login_is_an_error() {
    let mut server = Server::new();
    connect(&mut server, 5);
    let r = server.process_next_event(ServerEvent::Action {
        sender_id: 5,
        action: ServerAction::Logout,
    });
    assert!(matches!(r, Err(EventError::NotLoggedIn)));
}

#[test]
fn relogin_moves_the_member_between_worlds() {
    let mut server = Server::new();
    let _ = login(&mut server, 1, 100, "wanderer");
    let _ = login(&mut server, 2, 200, "resident");
    // Logging in again with another seed ends the old membership first.
    let out = server
        .process_next_event(ServerEvent::Action {
            sender_id: 1,
            action: ServerAction::Login { seed: 200, name: b"wanderer".to_vec() },
        })
        .expect("Failed to process event");
    assert!(!server.worlds.contains_key(100));
    assert!(server.worlds.contains_key(200));
    // The resident hears the newcomer join.
    assert!(out
        .iter()
        .any(|e| e.to == 2
            && e.action == ServerAction::Join { id: 1, name: b"wanderer".to_vec() }));
}

#[test]
fn handshake_attaches_peer_metadata() {
    let mut server = Server::new();
    connect(&mut server, 6);
    server
        .process_next_event(ServerEvent::Handshake {
            sender_id: 6,
            shake: PeerInfo {
                client: None,
                peer: Some("127.0.0.1:3012".to_string()),
            },
        })
        .expect("Failed to process event");
    let conn = server.connections.get(6).expect("Connection is tracked");
    assert_eq!(conn.peer_addr(), "127.0.0.1:3012");
    assert_eq!(conn.client_addr(), "Unknown Client: 127.0.0.1:3012");

    // Metadata for a connection that is already gone is dropped quietly.
    let r = server.process_next_event(ServerEvent::Handshake {
        sender_id: 88,
        shake: PeerInfo { client: Some("10.0.0.1".to_string()), peer: None },
    });
    assert!(r.is_ok());
    assert!(!server.connections.contains_key(88));
}

#[test]
fn noop_changes_nothing() {
    let mut server = Server::new();
    let _ = login(&mut server, 9, 77, "idle");
    let out = server
        .process_next_event(ServerEvent::Action { sender_id: 9, action: ServerAction::Noop })
        .expect("Failed to process event");
    assert!(out.is_empty());
    assert!(server.worlds.contains_key(77));
}
