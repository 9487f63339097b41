//! The wire protocol: exact JSON rendering and message parsing.

use lockstep::protocol::{
    message_from_json, update_to_json, world_to_json, ClientMessage, Update, World,
};

#[test]
fn world_serialization() {
    let world = World { frame: 123, world: vec![4, 5, 6] };
    let json = world_to_json(&world);
    assert_eq!(json, r#"  {"frame":123,"world":[4,5,6]}  "#.trim(),);
}

#[test]
fn update_serialization() {
    let update = Update {
        new_players: vec![1],
        removed_players: vec![2],
        inputs: vec![(3, vec![4])],
    };
    let json = update_to_json(&update);
    assert_eq!(
        json,
        r#"  {"newPlayers":[1],"removedPlayers":[2],"inputs":{"3":[4]}}  "#.trim(),
    );
}

#[test]
fn client_join_deserialization() {
    let json = r#"
        { "join": { "frame": 123 } }
    "#;
    let msg = message_from_json(json).expect("failed to deserialize");
    assert_eq!(msg, ClientMessage::Join { frame: 123 },);
}

#[test]
fn client_input_deserialization() {
    let json = r#"
        { "input": { "frame": 123, "input": [4, 5, 6] } }
    "#;
    let msg = message_from_json(json).expect("failed to deserialize");
    assert_eq!(msg, ClientMessage::Input { frame: 123, input: vec![4, 5, 6] },);
}

#[test]
fn empty_update_serialization() {
    let update = Update { new_players: vec![], removed_players: vec![], inputs: vec![] };
    assert_eq!(update_to_json(&update), r#"{"newPlayers":[],"removedPlayers":[],"inputs":{}}"#);
}

#[test]
fn empty_world_serialization() {
    let world = World { frame: 0, world: vec![] };
    assert_eq!(world_to_json(&world), r#"{"frame":0,"world":[]}"#);
}

#[test]
fn large_numbers_serialize() {
    let world = World { frame: u64::MAX, world: vec![0, 255] };
    assert_eq!(world_to_json(&world), r#"{"frame":18446744073709551615,"world":[0,255]}"#);
}

#[test]
fn input_members_parse_in_either_order() {
    assert_eq!(
        message_from_json(r#"{"input":{"input":[4,5,6],"frame":123}}"#)
            .expect("failed to deserialize"),
        ClientMessage::Input { frame: 123, input: vec![4, 5, 6] },
    );
    // a member may not appear twice in place of the other
    assert!(message_from_json(r#"{"input":{"frame":1,"frame":2}}"#).is_err());
}

#[test]
fn compact_messages_parse() {
    assert_eq!(
        message_from_json(r#"{"join":{"frame":0}}"#).expect("failed to deserialize"),
        ClientMessage::Join { frame: 0 },
    );
    assert_eq!(
        message_from_json(r#"{"input":{"frame":1,"input":[]}}"#).expect("failed to deserialize"),
        ClientMessage::Input { frame: 1, input: vec![] },
    );
}

#[test]
fn malformed_messages_are_rejected() {
    assert!(message_from_json("").is_err());
    assert!(message_from_json("{}").is_err());
    assert!(message_from_json(r#"{"join":{"frame":}}"#).is_err());
    assert!(message_from_json(r#"{"leave":{"frame":1}}"#).is_err());
    assert!(message_from_json(r#"{"join":{"frame":1}} trailing"#).is_err());
    // a superfluous leading zero is not a JSON number
    assert!(message_from_json(r#"{"join":{"frame":01}}"#).is_err());
    // a byte above 255 does not fit the input blob
    assert!(message_from_json(r#"{"input":{"frame":1,"input":[256]}}"#).is_err());
    // a frame beyond the 64-bit range is rejected
    assert!(message_from_json(r#"{"join":{"frame":18446744073709551616}}"#).is_err());
}

#[test]
fn roundtrip_frame_limit() {
    assert_eq!(
        message_from_json(r#"{"join":{"frame":18446744073709551615}}"#)
            .expect("failed to deserialize"),
        ClientMessage::Join { frame: u64::MAX },
    );
}
