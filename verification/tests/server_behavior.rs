//! Behavior of the lockstep server, driven through a small in-memory game.

use lockstep::game::{DeserializeError, FrameUpdate, Game};
use lockstep::server::Server;

struct TestGame(u64);

impl Game for TestGame {
    type World = Vec<String>;
    type Input = String;

    // ghost members of the trait; never run
    fn accepts_world(&self, _world: &Vec<String>) -> bool {
        true
    }

    fn accepts_input(&self, _input: &String) -> bool {
        true
    }

    fn initial_world(&mut self) -> Vec<String> {
        Vec::new()
    }

    fn update_world(&mut self, world: &Vec<String>) -> Vec<String> {
        let mut world = world.clone();
        world.push("update".into());
        world
    }

    fn update_player(&mut self, world: &Vec<String>, player: u64, input: &String) -> Vec<String> {
        let mut world = world.clone();
        world.push(format!("input {}: {}", player, input));
        world
    }

    fn add_player(&mut self, world: &Vec<String>, player: u64) -> Vec<String> {
        let mut world = world.clone();
        world.push(format!("add {}", player));
        world
    }

    fn remove_player(&mut self, world: &Vec<String>, player: u64) -> Vec<String> {
        let mut world = world.clone();
        world.push(format!("remove {}", player));
        world
    }

    fn deserialize_input(&mut self, from: &[u8]) -> Result<String, DeserializeError> {
        Ok(String::from_utf8(from.to_vec()).expect("bad input"))
    }

    fn serialize_world(&mut self, _world: &Vec<String>) -> Vec<u8> {
        Vec::new()
    }

    fn serialize_input(&mut self, input: &String) -> Vec<u8> {
        input.clone().into_bytes()
    }

    fn generate_player_id(&mut self) -> u64 {
        self.0 += 1;
        self.0
    }

    fn dispose_world(&mut self, _world: Vec<String>) {}

    fn dispose_input(&mut self, _input: String) {}
}

fn server() -> Server<TestGame> {
    Server::new(TestGame(0))
}

fn server_with_client() -> (Server<TestGame>, lockstep::server::ClientId) {
    let mut server = server();
    let (client, _world) = server.client_connected();
    assert!(server.client_joined(client, 0).is_ok());

    // player is added on next tick
    let tick = server.game_tick();
    let mut expected = FrameUpdate::default();
    expected.new_player(1);
    assert!(tick == expected);

    (server, client)
}

#[test]
fn ticking() {
    let mut server = server();
    // default FrameUpdate because there are no players - so no inputs
    assert!(server.game_tick() == FrameUpdate::default());
    assert!(server.game_tick() == FrameUpdate::default());
    assert_eq!(server.world(), &vec!["update", "update"]);
    assert_eq!(server.frame(), 2);
}

#[test]
fn connect() {
    let mut server = server();
    server.game_tick();
    let (_client, world) = server.client_connected();
    assert_eq!(world.world, &vec!["update"]);
    assert_eq!(world.frame, 1);
}

#[test]
fn connect_and_join() {
    let mut server = server();
    let (client, _world) = server.client_connected();
    assert!(server.client_joined(client, 1).is_ok());
    // default Frame update because it's tick 0
    assert!(server.game_tick() == FrameUpdate::default());
    // frame 1 - a new player should appear
    // test game generates player ids sequentially starting from 1
    let mut expected = FrameUpdate::default();
    expected.new_player(1);
    assert!(server.game_tick() == expected);
}

#[test]
fn joining_twice_is_error() {
    let mut server = server();
    let (client, _world) = server.client_connected();
    assert!(server.client_joined(client, 1).is_ok());
    assert!(server.client_joined(client, 1).is_err());
}

#[test]
fn client_input() {
    let mut server = server();
    let (client, _world) = server.client_connected();
    assert!(server.client_joined(client, 0).is_ok());

    // player is added on next tick
    let tick = server.game_tick();
    let mut expected = FrameUpdate::default();
    expected.new_player(1);
    assert!(tick == expected);

    assert!(server.client_input(client, 1, "abc".as_bytes()).is_ok());

    let tick = server.game_tick();
    let mut expected = FrameUpdate::default();
    expected.input(1, "abc".to_string());
    assert!(tick == expected);
}

#[test]
fn connect_join_leave() {
    let (mut server, client) = server_with_client();

    server.client_disconnected(client);

    let tick = server.game_tick();
    let mut expected = FrameUpdate::default();
    expected.remove_player(1);
    assert!(tick == expected);
}

#[test]
fn input_skip() {
    let (mut server, _client) = server_with_client();

    // client does not send any inputs, so no inputs in update
    assert!(server.game_tick() == FrameUpdate::default());
    assert!(server.game_tick() == FrameUpdate::default());
    assert!(server.game_tick() == FrameUpdate::default());
}

#[test]
fn disconnect_before_join_is_silent() {
    let mut server = server();
    let (client, _world) = server.client_connected();
    server.client_disconnected(client);

    // the client never had a player, so nothing is removed
    assert!(server.game_tick() == FrameUpdate::default());
}

#[test]
fn input_gap_disconnects() {
    let mut server = server();
    let (client, _world) = server.client_connected();
    assert!(server.client_joined(client, 0).is_ok());

    let tick = server.game_tick();
    let mut expected = FrameUpdate::default();
    expected.new_player(1);
    assert!(tick == expected);

    assert!(server.client_input(client, 1, "abc".as_bytes()).is_ok());

    // skipping frame 2 is a protocol violation: the client is terminated
    // (its queued inputs with it) and its player is removed by the next tick
    assert!(server.client_input(client, 3, "xyz".as_bytes()).is_err());

    let tick = server.game_tick();
    let mut expected = FrameUpdate::default();
    expected.remove_player(1);
    assert!(tick == expected);
}

#[test]
fn input_before_join_disconnects() {
    let mut server = server();
    let (client, _world) = server.client_connected();
    assert!(server.client_input(client, 1, "abc".as_bytes()).is_err());

    // the client never joined, so nothing is removed
    assert!(server.game_tick() == FrameUpdate::default());
}

#[test]
fn join_in_the_past_is_error() {
    let mut server = server();
    server.game_tick();
    server.game_tick();
    let (client, _world) = server.client_connected();
    assert!(server.client_joined(client, 1).is_err());
}

#[test]
fn repeated_input_is_error() {
    let (mut server, client) = server_with_client();
    assert!(server.client_input(client, 1, "a".as_bytes()).is_ok());
    assert!(server.client_input(client, 1, "b".as_bytes()).is_err());
}

#[test]
fn ticks_are_deterministic() {
    let drive = |server: &mut Server<TestGame>| -> Vec<String> {
        let (client, _world) = server.client_connected();
        assert!(server.client_joined(client, 0).is_ok());
        let mut log = Vec::new();
        log.push(format!("{:?}", server.game_tick().new_players()));
        assert!(server.client_input(client, 1, "abc".as_bytes()).is_ok());
        let update = server.game_tick();
        log.push(format!("{:?}", update.player_inputs()));
        log.push(format!("{:?}", server.world()));
        log
    };
    let mut a = server();
    let mut b = server();
    assert_eq!(drive(&mut a), drive(&mut b));
}

#[test]
fn input_cursor_marches_with_frames() {
    let (mut server, client) = server_with_client();
    // the first accepted input is for the frame right after the join,
    // and each later one for exactly the next frame
    assert!(server.client_input(client, 1, "a".as_bytes()).is_ok());
    server.game_tick();
    assert!(server.client_input(client, 2, "b".as_bytes()).is_ok());
    server.game_tick();
    assert!(server.client_input(client, 3, "c".as_bytes()).is_ok());
}

#[test]
fn removal_and_join_in_one_tick_stay_apart() {
    let (mut server, first) = server_with_client();
    server.client_disconnected(first);
    let (second, _world) = server.client_connected();
    assert!(server.client_joined(second, 1).is_ok());

    // player 1 leaves and player 2 arrives in the same update
    let tick = server.game_tick();
    let mut expected = FrameUpdate::default();
    expected.remove_player(1);
    expected.new_player(2);
    assert!(tick == expected);

    // the removal is never announced again
    assert!(server.game_tick() == FrameUpdate::default());
}

#[test]
fn update_insertion_is_ordered() {
    let mut update: FrameUpdate<TestGame> = FrameUpdate::default();
    update.new_player(7);
    update.new_player(3);
    update.new_player(7);
    assert_eq!(update.new_players(), &vec![3, 7]);
    update.remove_player(9);
    update.remove_player(1);
    assert_eq!(update.removed_players(), &vec![1, 9]);
    assert!(update.input(5, "x".to_string()).is_none());
    assert_eq!(update.input(5, "y".to_string()), Some("x".to_string()));
    assert_eq!(update.player_inputs().len(), 1);
    assert_eq!(update.get_input(5), Some(&"y".to_string()));
    assert_eq!(update.get_input(6), None);
}
