//! A small guest game: every player is a colored square that its inputs
//! move around.

use crate::guest::game::{DrawCommand, Game, PlayerId};
use crate::guest::keys::{Key, KeyboardState};
use crate::guest::serial::{ReadError, Reader, Serialize, Writer};
use vstd::prelude::*;

verus! {

/// One player's square.
#[derive(PartialEq, Eq, Structural, Debug, Copy, Clone)]
pub struct Player {
    pub id: PlayerId,
    pub x: i32,
    pub y: i32,
}

/// Addition clamped to the `i32` range, so a square stops at the world's
/// numeric edge instead of wrapping.
fn clamped_add(a: i32, b: i32) -> (r: i32)
    ensures
        r == if a + b > i32::MAX {
            i32::MAX as int
        } else if a + b < i32::MIN {
            i32::MIN as int
        } else {
            a + b
        },
{
    if b >= 0 {
        if a > i32::MAX - b {
            i32::MAX
        } else {
            a + b
        }
    } else {
        if a < i32::MIN - b {
            i32::MIN
        } else {
            a + b
        }
    }
}

impl Player {
    /// A fresh square near the corner.
    pub fn new(id: PlayerId) -> (r: Player)
        ensures
            r.id == id && r.x == 10 && r.y == 10,
    {
        Player { id, x: 10, y: 10 }
    }

    /// The color a player draws with, cycling through a fixed palette.
    pub fn color(&self) -> (c: u32)
        ensures
            c == Player::palette(self.id.spec_id() as int % 6),
    {
        match self.id.id() % 6 {
            0 => 0x0000FF,
            1 => 0x00FF00,
            2 => 0xFF0000,
            3 => 0x00FFFF,
            4 => 0xFF00FF,
            _ => 0xFFFF00,
        }
    }

    /// The fixed palette.
    pub open spec fn palette(i: int) -> u32 {
        if i == 0 {
            0x0000FF
        } else if i == 1 {
            0x00FF00
        } else if i == 2 {
            0xFF0000
        } else if i == 3 {
            0x00FFFF
        } else if i == 4 {
            0xFF00FF
        } else {
            0xFFFF00
        }
    }

    /// One input applied: the square moves by the input's delta, clamped at
    /// the numeric edge.
    pub fn update(&self, input: Input) -> (r: Player)
        ensures
            r.id == self.id,
            r.x as int == if self.x + input.dx > i32::MAX {
                i32::MAX as int
            } else if self.x + input.dx < i32::MIN {
                i32::MIN as int
            } else {
                self.x + input.dx
            },
            r.y as int == if self.y + input.dy > i32::MAX {
                i32::MAX as int
            } else if self.y + input.dy < i32::MIN {
                i32::MIN as int
            } else {
                self.y + input.dy
            },
    {
        Player {
            id: self.id,
            x: clamped_add(self.x, input.dx as i32),
            y: clamped_add(self.y, input.dy as i32),
        }
    }
}

impl View for Player {
    type V = Player;

    open spec fn view(&self) -> Player {
        *self
    }
}

impl DeepView for Player {
    type V = Player;

    open spec fn deep_view(&self) -> Player {
        *self
    }
}

impl Serialize for Player {
    closed spec fn enc(&self) -> Seq<u8> {
        (self.id, self.x, self.y).enc()
    }

    open spec fn enc_ok(&self) -> bool {
        true
    }

    closed spec fn dec(s: Seq<u8>) -> Option<(Player, int)> {
        match <(PlayerId, i32, i32)>::dec(s) {
            Some(((id, x, y), n)) => Some((Player { id, x, y }, n)),
            None => None,
        }
    }

    fn read<R: Reader>(reader: &mut R) -> (r: Result<Self, ReadError>) {
        match <(PlayerId, i32, i32)>::read(reader) {
            Ok((id, x, y)) => Ok(Player { id, x, y }),
            Err(e) => Err(e),
        }
    }

    fn write<W: Writer>(&self, writer: &mut W) {
        (self.id, self.x, self.y).write(writer);
    }

    proof fn enc_dec(v: Self, rest: Seq<u8>) {
        <(PlayerId, i32, i32)>::enc_dec((v.id, v.x, v.y), rest);
    }
}

/// One frame's movement: a delta per axis.
#[derive(PartialEq, Eq, Structural, Debug, Copy, Clone)]
pub struct Input {
    pub dx: i8,
    pub dy: i8,
}

impl View for Input {
    type V = Input;

    open spec fn view(&self) -> Input {
        *self
    }
}

impl DeepView for Input {
    type V = Input;

    open spec fn deep_view(&self) -> Input {
        *self
    }
}

impl Serialize for Input {
    closed spec fn enc(&self) -> Seq<u8> {
        (self.dx, self.dy).enc()
    }

    open spec fn enc_ok(&self) -> bool {
        true
    }

    closed spec fn dec(s: Seq<u8>) -> Option<(Input, int)> {
        match <(i8, i8)>::dec(s) {
            Some(((dx, dy), n)) => Some((Input { dx, dy }, n)),
            None => None,
        }
    }

    fn read<R: Reader>(reader: &mut R) -> (r: Result<Self, ReadError>) {
        match <(i8, i8)>::read(reader) {
            Ok((dx, dy)) => Ok(Input { dx, dy }),
            Err(e) => Err(e),
        }
    }

    fn write<W: Writer>(&self, writer: &mut W) {
        (self.dx, self.dy).write(writer);
    }

    proof fn enc_dec(v: Self, rest: Seq<u8>) {
        <(i8, i8)>::enc_dec((v.dx, v.dy), rest);
    }
}

/// The squares' world: every player's square.
#[derive(Debug, Clone)]
pub struct World {
    players: Vec<Player>,
}

impl View for World {
    type V = Seq<Player>;

    closed spec fn view(&self) -> Seq<Player> {
        self.players@
    }
}

impl DeepView for World {
    type V = Seq<Player>;

    closed spec fn deep_view(&self) -> Seq<Player> {
        self.players@
    }
}

impl Serialize for World {
    closed spec fn enc(&self) -> Seq<u8> {
        self.players.enc()
    }

    closed spec fn enc_ok(&self) -> bool {
        self.players.enc_ok()
    }

    closed spec fn dec(s: Seq<u8>) -> Option<(Seq<Player>, int)> {
        <Vec<Player>>::dec(s)
    }

    fn read<R: Reader>(reader: &mut R) -> (r: Result<Self, ReadError>) {
        match <Vec<Player>>::read(reader) {
            Ok(players) => {
                proof {
                    assert(players.deep_view() =~= players@);
                }
                Ok(World { players })
            },
            Err(e) => Err(e),
        }
    }

    fn write<W: Writer>(&self, writer: &mut W) {
        self.players.write(writer);
    }

    proof fn enc_dec(v: Self, rest: Seq<u8>) {
        <Vec<Player>>::enc_dec(v.players, rest);
        assert(v.players.deep_view() =~= v.players@);
    }
}

impl World {
    /// The world holding exactly these players.
    pub fn from_players(players: Vec<Player>) -> (r: World)
        ensures
            r@ == players@,
    {
        World { players }
    }

    /// The players, in the order they joined.
    pub fn players(&self) -> (r: &Vec<Player>)
        ensures
            r@ == self@,
    {
        &self.players
    }

    /// Every player transformed by `update`.
    pub fn update_players<F: Fn(Player) -> Player>(&self, update: F) -> (r: World)
        requires
            forall|p: Player| update.requires((p,)),
        ensures
            r@.len() == self@.len(),
            forall|i: int| 0 <= i < self@.len() ==> call_ensures(update, (self@[i],), #[trigger] r@[i]),
    {
        let mut players: Vec<Player> = Vec::new();
        let mut i: usize = 0;
        while i < self.players.len()
            invariant
                i <= self@.len(),
                players@.len() == i,
                forall|p: Player| update.requires((p,)),
                forall|j: int|
                    0 <= j < i ==> call_ensures(update, (self@[j],), #[trigger] players@[j]),
            decreases self@.len() - i,
        {
            players.push(update(self.players[i]));
            i += 1;
        }
        World { players }
    }

    /// This world with one more player.
    pub fn add_player(&self, player: Player) -> (r: World)
        ensures
            r@ == self@.push(player),
    {
        let mut world = World { players: self.players.clone() };
        proof {
            assert(world.players@ =~= self.players@);
        }
        world.add_player_in_place(player);
        world
    }

    /// Appends one player.
    pub fn add_player_in_place(&mut self, player: Player)
        ensures
            final(self)@ == old(self)@.push(player),
    {
        self.players.push(player);
    }

    /// This world without the player of the given id.
    pub fn remove_player(&self, id: PlayerId) -> (r: World)
        ensures
            r@ == self@.filter(|p: Player| p.id != id),
    {
        let mut players: Vec<Player> = Vec::new();
        let ghost f = |p: Player| p.id != id;
        let mut i: usize = 0;
        proof {
            assert(self@.take(0).filter(f) =~= Seq::<Player>::empty());
        }
        while i < self.players.len()
            invariant
                i <= self@.len(),
                players@ == self@.take(i as int).filter(f),
                f == (|p: Player| p.id != id),
            decreases self@.len() - i,
        {
            let p = self.players[i];
            proof {
                assert(self@.take(i + 1).drop_last() =~= self@.take(i as int));
                assert(self@.take(i + 1).last() == self@[i as int]);
                reveal(Seq::filter);
            }
            if !(p.id == id) {
                players.push(p);
            }
            i += 1;
        }
        proof {
            assert(self@.take(self@.len() as int) =~= self@);
        }
        World { players }
    }
}

/// The squares game.
pub struct Squares;

impl Game for Squares {
    type World = World;

    type Input = Input;

    fn initial_world() -> Self::World {
        World { players: Vec::new() }
    }

    fn update_world(world: &Self::World) -> Self::World {
        world.clone()
    }

    fn update_player(world: &Self::World, id: PlayerId, input: &Self::Input) -> Self::World {
        let moved = *input;
        world.update_players(
            |player: Player| -> (r: Player)
                {
                    if player.id == id {
                        player.update(moved)
                    } else {
                        player
                    }
                },
        )
    }

    fn add_player(world: &Self::World, player: PlayerId) -> Self::World {
        world.add_player(Player::new(player))
    }

    fn remove_player(world: &Self::World, player: PlayerId) -> Self::World {
        world.remove_player(player)
    }

    fn create_input(keys: KeyboardState) -> Self::Input {
        let mut dx: i8 = 0;
        let mut dy: i8 = 0;
        if keys.is_pressed(Key::Right) {
            dx = dx + 1;
        }
        if keys.is_pressed(Key::Left) {
            dx = dx - 1;
        }
        if keys.is_pressed(Key::Down) {
            dy = dy + 1;
        }
        if keys.is_pressed(Key::Up) {
            dy = dy - 1;
        }
        Input { dx, dy }
    }

    fn render(world: &Self::World, _local_player: PlayerId, _width: u32, _height: u32) -> Vec<
        DrawCommand,
    > {
        let mut commands: Vec<DrawCommand> = Vec::new();
        let mut i: usize = 0;
        while i < world.players().len()
            invariant
                i <= world@.len(),
            decreases world@.len() - i,
        {
            let player = world.players()[i];
            commands.push(
                DrawCommand { x: player.x, y: player.y, width: 20, height: 20, color: player.color() },
            );
            i += 1;
        }
        commands
    }
}

} // verus!
