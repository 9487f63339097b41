//! The lockstep server over the hosted squares game: end to end through the
//! guest handle table, watching the handle ledger as it goes.

use lockstep::driver::{connect_client, handle_client_message, tick_message};
use lockstep::guest::instance::GameInstance;
use lockstep::guest::squares::Squares;
use lockstep::host::WasmiGame;
use lockstep::server::Server;

fn hosted_server() -> Server<WasmiGame<Squares>> {
    Server::new(WasmiGame::new(GameInstance::new()))
}

#[test]
fn one_world_between_ticks() {
    let mut server = hosted_server();
    // exactly the current world is live
    assert_eq!(server.game().live_handle_count(), 1);

    let (_id, snapshot) = connect_client(&mut server);
    assert_eq!(snapshot, r#"{"frame":0,"world":[0,0,0,0]}"#);
    assert_eq!(server.game().live_handle_count(), 1);

    // the previous world is released when the tick replaces it
    let broadcast = tick_message(&mut server);
    assert_eq!(
        broadcast,
        r#"{"newPlayers":[],"removedPlayers":[],"inputs":{}}"#
    );
    assert_eq!(server.game().live_handle_count(), 1);
}

#[test]
fn queued_input_holds_a_handle() {
    let mut server = hosted_server();
    let (id, _snapshot) = connect_client(&mut server);

    assert!(handle_client_message(&mut server, id, r#"{"join":{"frame":0}}"#));
    let broadcast = tick_message(&mut server);
    assert_eq!(
        broadcast,
        r#"{"newPlayers":[0],"removedPlayers":[],"inputs":{}}"#
    );
    assert_eq!(server.game().live_handle_count(), 1);

    // a queued input is one extra live handle; the squares input is two bytes
    assert!(handle_client_message(
        &mut server,
        id,
        r#"{"input":{"frame":1,"input":[1,0]}}"#
    ));
    assert_eq!(server.game().live_handle_count(), 2);

    // applying the input consumes it: back to one world
    let broadcast = tick_message(&mut server);
    assert_eq!(
        broadcast,
        r#"{"newPlayers":[],"removedPlayers":[],"inputs":{"0":[1,0]}}"#
    );
    assert_eq!(server.game().live_handle_count(), 1);
}

#[test]
fn disconnect_releases_queued_inputs() {
    let mut server = hosted_server();
    let (id, _snapshot) = connect_client(&mut server);
    assert!(handle_client_message(&mut server, id, r#"{"join":{"frame":0}}"#));
    tick_message(&mut server);
    assert!(handle_client_message(
        &mut server,
        id,
        r#"{"input":{"frame":1,"input":[1,0]}}"#
    ));
    assert_eq!(server.game().live_handle_count(), 2);

    server.client_disconnected(id);
    assert_eq!(server.game().live_handle_count(), 1);

    let broadcast = tick_message(&mut server);
    assert_eq!(
        broadcast,
        r#"{"newPlayers":[],"removedPlayers":[0],"inputs":{}}"#
    );
    assert_eq!(server.game().live_handle_count(), 1);
}

#[test]
fn malformed_input_blob_disconnects() {
    let mut server = hosted_server();
    let (id, _snapshot) = connect_client(&mut server);
    assert!(handle_client_message(&mut server, id, r#"{"join":{"frame":0}}"#));
    tick_message(&mut server);

    // one byte is not a squares input: the decode fails, the client goes
    assert!(!handle_client_message(
        &mut server,
        id,
        r#"{"input":{"frame":1,"input":[1]}}"#
    ));
    let broadcast = tick_message(&mut server);
    assert_eq!(
        broadcast,
        r#"{"newPlayers":[],"removedPlayers":[0],"inputs":{}}"#
    );
    assert_eq!(server.game().live_handle_count(), 1);
}

#[test]
fn world_snapshot_follows_players() {
    let mut server = hosted_server();
    let (id, _snapshot) = connect_client(&mut server);
    assert!(handle_client_message(&mut server, id, r#"{"join":{"frame":0}}"#));
    tick_message(&mut server);

    // one player at the starting square: length 1, id 0, x 10, y 10
    let (_id2, snapshot) = connect_client(&mut server);
    assert_eq!(
        snapshot,
        r#"{"frame":1,"world":[1,0,0,0,0,0,0,0,10,0,0,0,10,0,0,0]}"#
    );
}
