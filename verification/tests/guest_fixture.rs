//! The guest fixture on its own: serialization round trips, keyboard masks,
//! the handle table, the stand-in game, and packaging.

use lockstep::basic;
use lockstep::guest::game::PlayerId;
use lockstep::guest::instance::GameInstance;
use lockstep::guest::keys::{Key, KeyboardState};
use lockstep::guest::serial::{Serialize, SliceReader};
use lockstep::guest::squares::Squares;
use lockstep::package::{build_package, load_package, LoadError};

#[test]
fn integer_round_trips() {
    let mut buf: Vec<u8> = Vec::new();
    0xABCDu16.write(&mut buf);
    0xDEADBEEFu32.write(&mut buf);
    0x0123456789ABCDEFu64.write(&mut buf);
    (-5i8).write(&mut buf);
    (-300i16).write(&mut buf);
    assert_eq!(buf.len(), 2 + 4 + 8 + 1 + 2);
    assert_eq!(&buf[..2], &[0xCD, 0xAB]);
    assert_eq!(&buf[2..6], &[0xEF, 0xBE, 0xAD, 0xDE]);

    let mut reader = SliceReader::new(buf.as_slice());
    assert_eq!(u16::read(&mut reader).unwrap(), 0xABCD);
    assert_eq!(u32::read(&mut reader).unwrap(), 0xDEADBEEF);
    assert_eq!(u64::read(&mut reader).unwrap(), 0x0123456789ABCDEF);
    assert_eq!(i8::read(&mut reader).unwrap(), -5);
    assert_eq!(i16::read(&mut reader).unwrap(), -300);
    assert!(u8::read(&mut reader).is_err());
}

#[test]
fn vector_round_trip() {
    let mut buf: Vec<u8> = Vec::new();
    vec![7u16, 8, 9].write(&mut buf);
    assert_eq!(buf, vec![3, 0, 0, 0, 7, 0, 8, 0, 9, 0]);
    let mut reader = SliceReader::new(buf.as_slice());
    assert_eq!(<Vec<u16>>::read(&mut reader).unwrap(), vec![7, 8, 9]);

    // a truncated stream does not decode
    let short = &buf[..5];
    let mut reader = SliceReader::new(short);
    assert!(<Vec<u16>>::read(&mut reader).is_err());
}

#[test]
fn tuple_round_trip() {
    let mut buf: Vec<u8> = Vec::new();
    (1u8, 2u16, 3u32).write(&mut buf);
    assert_eq!(buf, vec![1, 2, 0, 3, 0, 0, 0]);
    let mut reader = SliceReader::new(buf.as_slice());
    assert_eq!(<(u8, u16, u32)>::read(&mut reader).unwrap(), (1, 2, 3));
}

#[test]
fn keyboard_masks() {
    // Right is bit 35, in the high half's low bits
    let keys = KeyboardState::new(0, 0, 1 << 3, 0);
    assert!(keys.is_pressed(Key::Right));
    assert!(!keys.was_pressed(Key::Right));
    assert!(keys.is_just_pressed(Key::Right));
    assert!(!keys.is_pressed(Key::Left));

    // A is bit 0, in the low half
    let keys = KeyboardState::new(1, 1, 0, 0);
    assert!(keys.is_pressed(Key::A));
    assert!(keys.was_pressed(Key::A));
    assert!(!keys.is_just_pressed(Key::A));
}

#[test]
fn handle_table_reuses_lowest_free_slot() {
    let mut instance: GameInstance<Squares> = GameInstance::new();
    let w0 = instance.initial_world();
    let w1 = instance.update_world(w0);
    let w2 = instance.update_world(w1);
    assert_eq!(instance.live_handles(), 3);
    instance.free_handle(w1);
    assert_eq!(instance.live_handles(), 2);
    // the freed slot is filled again before the table grows
    let w3 = instance.update_world(w2);
    assert_eq!(w3, w1);
    assert_eq!(instance.live_handles(), 3);
    instance.free_handle(w0);
    instance.free_handle(w2);
    instance.free_handle(w3);
    assert_eq!(instance.live_handles(), 0);
}

#[test]
fn guest_serialization_via_buffers() {
    let mut instance: GameInstance<Squares> = GameInstance::new();
    let world = instance.initial_world();
    let player = instance.add_player(world, 4);
    let buffer = instance.serialize_world(player);
    // one player: length 1, id 4, x 10, y 10 in little-endian words
    assert_eq!(
        instance.read_buffer(buffer),
        vec![1, 0, 0, 0, 4, 0, 0, 0, 10, 0, 0, 0, 10, 0, 0, 0]
    );
    let restored = instance.deserialize_world(buffer).expect("world should decode");
    let again = instance.serialize_world(restored);
    assert_eq!(
        instance.read_buffer(again),
        vec![1, 0, 0, 0, 4, 0, 0, 0, 10, 0, 0, 0, 10, 0, 0, 0]
    );
}

#[test]
fn player_ids_carry_through() {
    let id = PlayerId::new(77);
    assert_eq!(id.id(), 77);
}

#[test]
fn stand_in_game_counts_frames() {
    let mut game = basic::Game::new();
    let w0 = game.initial_world();
    let w1 = game.update_world(&w0);
    let buffer = game.serialize_world(&w1);
    assert_eq!(game.buffer_data(&buffer), &[1, 0, 0, 0, 0, 0, 0, 0]);

    let input = game.deserialize_input(&[9, 9]).unwrap();
    let blob = game.serialize_input(&input);
    assert_eq!(game.buffer_data(&blob), &[9, 9]);

    assert_eq!(game.generate_player_id().to_u64(), 0);
    assert_eq!(game.generate_player_id().to_u64(), 1);
}

#[test]
fn packages_round_trip() {
    // a minimal but well-formed bytecode module: magic and version
    let module: Vec<u8> = vec![0x00, 0x61, 0x73, 0x6D, 0x01, 0x00, 0x00, 0x00];
    let archive = build_package(module.as_slice()).expect("packaging should succeed");
    let package = load_package(archive.as_slice()).expect("the built archive should load");
    assert_eq!(package.wasm_module, module);
    // packaging is deterministic: the same module wraps to the same bytes
    assert_eq!(build_package(module.as_slice()).expect("packaging should succeed"), archive);
}

#[test]
fn malformed_packages_are_refused() {
    match load_package(&[1, 2, 3]) {
        Err(LoadError::MalformedPackage) | Err(LoadError::Io) => (),
        Ok(_) => panic!("junk bytes must not load"),
    }
}
