//! The interface a guest game implements: pure operations from world to
//! world, plus input construction and rendering. The trait is static — the
//! guest's game state lives entirely in its world values.

pub use crate::guest::keys::KeyboardState;
use crate::guest::serial::{ReadError, Reader, Serialize, Writer};
use vstd::prelude::*;

verus! {

/// A player's identity inside the guest: a 32-bit id assigned by the host.
#[derive(PartialEq, Eq, Structural, Debug, Copy, Clone)]
pub struct PlayerId {
    id: u32,
}

impl PlayerId {
    /// The raw id, at the specification level.
    pub closed spec fn spec_id(&self) -> u32 {
        self.id
    }

    /// Wraps a raw id.
    pub fn new(id: u32) -> (r: PlayerId)
        ensures
            r.spec_id() == id,
    {
        PlayerId { id }
    }

    /// The raw id.
    pub fn id(&self) -> (r: u32)
        ensures
            r == self.spec_id(),
    {
        self.id
    }
}

impl View for PlayerId {
    type V = PlayerId;

    open spec fn view(&self) -> PlayerId {
        *self
    }
}

impl DeepView for PlayerId {
    type V = PlayerId;

    open spec fn deep_view(&self) -> PlayerId {
        *self
    }
}

impl Serialize for PlayerId {
    closed spec fn enc(&self) -> Seq<u8> {
        self.id.enc()
    }

    open spec fn enc_ok(&self) -> bool {
        true
    }

    closed spec fn dec(s: Seq<u8>) -> Option<(PlayerId, int)> {
        match u32::dec(s) {
            Some((v, n)) => Some((PlayerId { id: v }, n)),
            None => None,
        }
    }

    fn read<R: Reader>(reader: &mut R) -> (r: Result<Self, ReadError>) {
        match u32::read(reader) {
            Ok(v) => Ok(PlayerId { id: v }),
            Err(e) => Err(e),
        }
    }

    fn write<W: Writer>(&self, writer: &mut W) {
        self.id.write(writer);
    }

    proof fn enc_dec(v: Self, rest: Seq<u8>) {
        u32::enc_dec(v.id, rest);
    }
}

/// One rectangle a render pass asks the embedder to draw.
#[derive(PartialEq, Eq, Structural, Debug, Copy, Clone)]
pub struct DrawCommand {
    pub x: i32,
    pub y: i32,
    pub width: u32,
    pub height: u32,
    pub color: u32,
}

/// The operations a guest game provides: all pure, worlds in and worlds
/// out. Rendering returns the rectangles to draw rather than drawing.
pub trait Game {
    type World: Serialize;
    type Input: Serialize;

    /// The world before any frame ran.
    fn initial_world() -> Self::World;

    /// One world tick.
    fn update_world(world: &Self::World) -> Self::World;

    /// One player's input applied.
    fn update_player(world: &Self::World, player: PlayerId, input: &Self::Input) -> Self::World;

    /// A player introduced.
    fn add_player(world: &Self::World, player: PlayerId) -> Self::World;

    /// A player removed.
    fn remove_player(world: &Self::World, player: PlayerId) -> Self::World;

    /// An input built from the local keyboard.
    fn create_input(keys: KeyboardState) -> Self::Input;

    /// The rectangles that draw this world.
    fn render(world: &Self::World, local_player: PlayerId, width: u32, height: u32) -> Vec<
        DrawCommand,
    >;
}

/// The game with nothing in it.
pub struct Empty;

impl Game for Empty {
    type World = ();

    type Input = ();

    fn initial_world() -> Self::World {
        ()
    }

    fn update_world(_world: &Self::World) -> Self::World {
        ()
    }

    fn update_player(_world: &Self::World, _player: PlayerId, _input: &Self::Input) -> Self::World {
        ()
    }

    fn add_player(_world: &Self::World, _player: PlayerId) -> Self::World {
        ()
    }

    fn remove_player(_world: &Self::World, _player: PlayerId) -> Self::World {
        ()
    }

    fn create_input(_keys: KeyboardState) -> Self::Input {
        ()
    }

    fn render(_world: &Self::World, _local_player: PlayerId, _width: u32, _height: u32) -> Vec<
        DrawCommand,
    > {
        Vec::new()
    }
}

} // verus!
