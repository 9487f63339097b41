//! A minimal stand-in game: the world is nothing but its frame number, and
//! players and inputs pass through untouched. Useful as the simplest
//! exercise of the server's calling conventions.

use crate::game::ToBlob;
use vstd::prelude::*;

verus! {

/// The stand-in world: only a frame counter.
#[derive(Debug, Copy, Clone)]
pub struct World {
    frame: u64,
}

impl World {
    /// The frame this world is at.
    pub closed spec fn spec_frame(&self) -> u64 {
        self.frame
    }
}

/// The stand-in input: the raw bytes as received.
#[derive(Debug, Clone)]
pub struct Input {
    raw: Vec<u8>,
}

impl Input {
    /// The raw bytes.
    pub closed spec fn spec_raw(&self) -> Seq<u8> {
        self.raw@
    }
}

/// The stand-in player id.
#[derive(PartialEq, Eq, Structural, Debug, Hash, Clone)]
pub struct PlayerId {
    id: u64,
}

impl PlayerId {
    /// The id on the wire.
    pub closed spec fn spec_id(&self) -> u64 {
        self.id
    }

    /// The id on the wire.
    pub fn to_u64(&self) -> (r: u64)
        ensures
            r == self.spec_id(),
    {
        self.id
    }
}

/// An encoded blob handed back by the serialize operations.
#[derive(Debug, Clone)]
pub struct Buffer {
    data: Vec<u8>,
}

impl Buffer {
    /// The blob's bytes.
    pub closed spec fn spec_data(&self) -> Seq<u8> {
        self.data@
    }
}

/// The stand-in game: allocates ids sequentially and counts frames.
pub struct Game {
    next_player_id: u64,
}

impl Game {
    /// The next id this game will allocate.
    pub closed spec fn spec_next_player_id(&self) -> u64 {
        self.next_player_id
    }

    /// A game that allocates ids from zero.
    pub fn new() -> (r: Game)
        ensures
            r.spec_next_player_id() == 0,
    {
        Game { next_player_id: 0 }
    }

    /// The world at frame 0.
    pub fn initial_world(&mut self) -> (w: World)
        ensures
            w.spec_frame() == 0,
            *final(self) == *old(self),
    {
        World { frame: 0 }
    }

    /// One world tick: the frame advances.
    pub fn update_world(&mut self, world: &World) -> (w: World)
        requires
            world.spec_frame() < u64::MAX,
        ensures
            w.spec_frame() == world.spec_frame() + 1,
            *final(self) == *old(self),
    {
        World { frame: world.frame + 1 }
    }

    /// Inputs do not change the stand-in world.
    pub fn update_player(&mut self, _player: &PlayerId, _input: &Input, world: &World) -> (w:
        World)
        ensures
            w.spec_frame() == world.spec_frame(),
            *final(self) == *old(self),
    {
        world.clone()
    }

    /// Removals do not change the stand-in world.
    pub fn remove_player(&mut self, _player: &PlayerId, world: &World) -> (w: World)
        ensures
            w.spec_frame() == world.spec_frame(),
            *final(self) == *old(self),
    {
        world.clone()
    }

    /// Additions do not change the stand-in world.
    pub fn add_player(&mut self, _player: &PlayerId, world: &World) -> (w: World)
        ensures
            w.spec_frame() == world.spec_frame(),
            *final(self) == *old(self),
    {
        world.clone()
    }

    /// Every blob decodes, to itself.
    pub fn deserialize_input(&mut self, data: &[u8]) -> (r: Option<Input>)
        ensures
            r matches Some(i) && i.spec_raw() == data@,
            *final(self) == *old(self),
    {
        let mut raw: Vec<u8> = Vec::new();
        let mut i: usize = 0;
        while i < data.len()
            invariant
                i <= data@.len(),
                raw@ == data@.take(i as int),
            decreases data@.len() - i,
        {
            raw.push(data[i]);
            proof {
                assert(raw@ =~= data@.take(i + 1));
            }
            i += 1;
        }
        proof {
            assert(data@.take(data@.len() as int) =~= data@);
        }
        Some(Input { raw })
    }

    /// The world's bytes: its frame, little endian.
    pub fn serialize_world(&mut self, world: &World) -> (r: Buffer)
        ensures
            r.spec_data() == frame_bytes(world.spec_frame()),
            *final(self) == *old(self),
    {
        Buffer { data: frame_to_bytes(world.frame) }
    }

    /// An input's bytes: exactly the blob it decoded from.
    pub fn serialize_input(&mut self, input: &Input) -> (r: Buffer)
        ensures
            r.spec_data() == input.spec_raw(),
            *final(self) == *old(self),
    {
        let data = input.raw.clone();
        proof {
            assert(data@ =~= input.spec_raw());
        }
        Buffer { data }
    }

    /// The bytes behind a buffer.
    pub fn buffer_data<'a>(&'a self, buffer: &'a Buffer) -> (r: &'a [u8])
        ensures
            r@ == buffer.spec_data(),
    {
        buffer.data.as_slice()
    }

    /// Allocates the next sequential player id.
    pub fn generate_player_id(&mut self) -> (r: PlayerId)
        requires
            old(self).spec_next_player_id() < u64::MAX,
        ensures
            r.spec_id() == old(self).spec_next_player_id(),
            final(self).spec_next_player_id() == old(self).spec_next_player_id() + 1,
    {
        let id = PlayerId { id: self.next_player_id };
        self.next_player_id = self.next_player_id + 1;
        id
    }
}

/// The frame number as eight bytes, executably.
fn frame_to_bytes(frame: u64) -> (r: Vec<u8>)
    ensures
        r@ == frame_bytes(frame),
{
    let mut data: Vec<u8> = Vec::new();
    let mut rest = frame;
    let mut k: usize = 0;
    while k < 8
        invariant
            k <= 8,
            data@.len() == k,
            forall|j: int| 0 <= j < k ==> (#[trigger] data@[j]) == frame_bytes(frame)[j],
            rest == shifted(frame, k as nat),
        decreases 8 - k,
    {
        data.push((rest % 256) as u8);
        rest = rest / 256;
        k += 1;
    }
    proof {
        assert(data@ =~= frame_bytes(frame));
    }
    data
}

impl ToBlob for World {
    open spec fn blob(&self) -> Seq<u8> {
        frame_bytes(self.spec_frame())
    }

    fn to_blob(&self) -> (r: Vec<u8>) {
        frame_to_bytes(self.frame)
    }
}

impl ToBlob for Input {
    open spec fn blob(&self) -> Seq<u8> {
        self.spec_raw()
    }

    fn to_blob(&self) -> (r: Vec<u8>) {
        let data = self.raw.clone();
        proof {
            assert(data@ =~= self.spec_raw());
        }
        data
    }
}

/// `frame` divided down by `k` bytes.
pub open spec fn shifted(frame: u64, k: nat) -> u64
    decreases k,
{
    if k == 0 {
        frame
    } else {
        shifted(frame, (k - 1) as nat) / 256
    }
}

/// The eight little-endian bytes of a frame number.
pub open spec fn frame_bytes(frame: u64) -> Seq<u8> {
    Seq::new(8, |j: int| (shifted(frame, j as nat) % 256) as u8)
}

} // verus!
