//! The hosted game: the adapter between the lockstep server and a guest
//! instance. Every world and input value the server holds is exactly one
//! live handle in the guest's object table; each operation allocates its
//! result there, transfer buffers are freed before the call returns, and
//! `dispose_*` releases a handle exactly once.

use crate::game::{DeserializeError, Game};
use crate::guest::game::Game as GuestGame;
use crate::guest::instance::{
    fills, input_at, is_input, is_live, is_world, lemma_count_same_shape, lemma_fill_count,
    lemma_free_count, live_count, world_at, GameInstance, Handle, Object,
};
use crate::guest::serial::Serialize;
use vstd::prelude::*;

verus! {

/// An owned handle to a world in the guest heap.
pub struct World {
    handle: Handle,
}

/// An owned handle to an input in the guest heap.
pub struct Input {
    handle: Handle,
}

/// One slot was filled: the live count rose by one.
proof fn handle_count_after_fill<G: GuestGame>(
    olds: Seq<Option<Object<G>>>,
    news: Seq<Option<Object<G>>>,
    h: usize,
)
    requires
        exists|obj: Object<G>| #[trigger] fills(olds, news, h, obj),
    ensures
        live_count(news) == live_count(olds) + 1,
{
    let obj = choose|obj: Object<G>| fills(olds, news, h, obj);
    lemma_fill_count(olds, news, h, obj);
}

/// The lockstep server's game, hosted by a guest instance.
pub struct WasmiGame<G: GuestGame> {
    next_player_id: u64,
    module: GameInstance<G>,
}

impl<G: GuestGame> WasmiGame<G> {
    /// The guest object table behind this game.
    pub closed spec fn table(&self) -> Seq<Option<Object<G>>> {
        self.module@
    }

    /// The number of handles live in the guest heap.
    pub open spec fn live_handles(&self) -> int {
        live_count(self.table())
    }

    /// The number of handles live in the guest heap, counted: one per world
    /// and input the server still owns (transfer buffers are freed before
    /// any call returns).
    pub fn live_handle_count(&self) -> (n: usize)
        ensures
            n as int == self.live_handles(),
    {
        self.module.live_handles()
    }

    /// Wraps a freshly created guest instance; no id has been handed out.
    pub fn new(module: GameInstance<G>) -> (r: WasmiGame<G>)
        requires
            module@ == Seq::<Option<Object<G>>>::empty(),
        ensures
            r.table() == Seq::<Option<Object<G>>>::empty(),
            r.id_floor() == 0,
    {
        WasmiGame { next_player_id: 0, module }
    }
}

impl<G: GuestGame> Game for WasmiGame<G> {
    type World = World;

    type Input = Input;

    closed spec fn accepts_world(&self, world: &World) -> bool {
        is_world(self.table(), world.handle.0)
    }

    closed spec fn accepts_input(&self, input: &Input) -> bool {
        is_input(self.table(), input.handle.0)
    }

    closed spec fn world_blob(&self, world: &World) -> Seq<u8> {
        world_at(self.table(), world.handle.0).enc()
    }

    closed spec fn input_blob(&self, input: &Input) -> Seq<u8> {
        input_at(self.table(), input.handle.0).enc()
    }

    closed spec fn blob_decodes(&self, bytes: Seq<u8>) -> bool {
        bytes.len() <= u32::MAX && <G::Input as Serialize>::dec(bytes) is Some
    }

    closed spec fn id_floor(&self) -> u64 {
        self.next_player_id
    }

    fn initial_world(&mut self) -> (w: World)
        ensures
            final(self).live_handles() == old(self).live_handles() + 1,
    {
        let h = self.module.initial_world();
        proof {
            handle_count_after_fill(old(self).table(), self.table(), h.0);
        }
        World { handle: h }
    }

    fn update_world(&mut self, world: &World) -> (w: World)
        ensures
            final(self).live_handles() == old(self).live_handles() + 1,
    {
        let h = self.module.update_world(world.handle);
        proof {
            handle_count_after_fill(old(self).table(), self.table(), h.0);
        }
        World { handle: h }
    }

    fn update_player(&mut self, world: &World, player: u64, input: &Input) -> (w: World)
        ensures
            final(self).live_handles() == old(self).live_handles() + 1,
    {
        let h = self.module.update_player(world.handle, player as u32, input.handle);
        proof {
            handle_count_after_fill(old(self).table(), self.table(), h.0);
        }
        World { handle: h }
    }

    fn add_player(&mut self, world: &World, player: u64) -> (w: World)
        ensures
            final(self).live_handles() == old(self).live_handles() + 1,
    {
        let h = self.module.add_player(world.handle, player as u32);
        proof {
            handle_count_after_fill(old(self).table(), self.table(), h.0);
        }
        World { handle: h }
    }

    fn remove_player(&mut self, world: &World, player: u64) -> (w: World)
        ensures
            final(self).live_handles() == old(self).live_handles() + 1,
    {
        let h = self.module.remove_player(world.handle, player as u32);
        proof {
            handle_count_after_fill(old(self).table(), self.table(), h.0);
        }
        World { handle: h }
    }

    fn deserialize_input(&mut self, from: &[u8]) -> (r: Result<Input, DeserializeError>)
        ensures
            r is Ok ==> final(self).live_handles() == old(self).live_handles() + 1,
            r is Err ==> final(self).live_handles() == old(self).live_handles(),
    {
        if from.len() > u32::MAX as usize {
            // longer than the 32-bit transfer size can carry
            return Err(DeserializeError);
        }
        let ghost t0 = self.table();
        let buffer = self.module.allocate_buffer(from.len() as u32);
        proof {
            handle_count_after_fill(t0, self.table(), buffer.0);
        }
        let ghost t1 = self.table();
        self.module.write_buffer(buffer, from);
        proof {
            lemma_count_same_shape(t1, self.table());
        }
        let ghost t2 = self.table();
        let decoded = self.module.deserialize_input(buffer);
        proof {
            if decoded is Ok {
                handle_count_after_fill(t2, self.table(), (decoded->Ok_0).0);
            }
            assert(is_live(self.table(), buffer.0));
            lemma_free_count(self.table(), buffer.0);
        }
        self.module.free_handle(buffer);
        match decoded {
            Ok(h) => Ok(Input { handle: h }),
            Err(_) => Err(DeserializeError),
        }
    }

    fn serialize_world(&mut self, world: &World) -> (r: Vec<u8>)
        ensures
            final(self).live_handles() == old(self).live_handles(),
    {
        let ghost t0 = self.table();
        let buffer = self.module.serialize_world(world.handle);
        proof {
            handle_count_after_fill(t0, self.table(), buffer.0);
            assert(is_live(self.table(), buffer.0));
            lemma_free_count(self.table(), buffer.0);
        }
        let bytes = self.module.read_buffer(buffer);
        self.module.free_handle(buffer);
        bytes
    }

    fn serialize_input(&mut self, input: &Input) -> (r: Vec<u8>)
        ensures
            final(self).live_handles() == old(self).live_handles(),
    {
        let ghost t0 = self.table();
        let buffer = self.module.serialize_input(input.handle);
        proof {
            handle_count_after_fill(t0, self.table(), buffer.0);
            assert(is_live(self.table(), buffer.0));
            lemma_free_count(self.table(), buffer.0);
        }
        let bytes = self.module.read_buffer(buffer);
        self.module.free_handle(buffer);
        bytes
    }

    fn generate_player_id(&mut self) -> (p: u64)
        ensures
            final(self).live_handles() == old(self).live_handles(),
    {
        let id = self.next_player_id;
        self.next_player_id = id + 1;
        id
    }

    fn dispose_world(&mut self, world: World)
        ensures
            final(self).live_handles() == old(self).live_handles() - 1,
    {
        proof {
            lemma_free_count(self.table(), world.handle.0);
        }
        self.module.free_handle(world.handle);
    }

    fn dispose_input(&mut self, input: Input)
        ensures
            final(self).live_handles() == old(self).live_handles() - 1,
    {
        proof {
            lemma_free_count(self.table(), input.handle.0);
        }
        self.module.free_handle(input.handle);
    }
}

} // verus!
