//! The guest-side handle table: every world, input, and transfer buffer the
//! guest hands across the boundary lives in one slot of an object table, and
//! is named outside only by its slot index. Freeing a handle empties its
//! slot; allocation always fills the lowest free slot, so a freed handle is
//! reused before the table grows.

use crate::guest::game::{DrawCommand, Game, KeyboardState, PlayerId};
use crate::guest::serial::{ReadError, Reader, Serialize, SliceReader};
use vstd::prelude::*;

verus! {

/// A slot index naming one live object of the table. (On the module
/// boundary a handle travels as a 32-bit word; the native table indexes
/// natively.)
#[derive(PartialEq, Eq, Structural, Debug, Copy, Clone)]
pub struct Handle(pub usize);

/// One slot's occupant.
pub enum Object<G: Game> {
    World(G::World),
    Input(G::Input),
    Buffer(Vec<u8>),
}

/// The guest instance: its object table.
pub struct GameInstance<G: Game> {
    objects: Vec<Option<Object<G>>>,
}

impl<G: Game> View for GameInstance<G> {
    type V = Seq<Option<Object<G>>>;

    closed spec fn view(&self) -> Seq<Option<Object<G>>> {
        self.objects@
    }
}

/// The handle names a live slot.
pub open spec fn is_live<G: Game>(objs: Seq<Option<Object<G>>>, h: usize) -> bool {
    (h as int) < objs.len() && objs[h as int] is Some
}

/// The handle names a live world.
pub open spec fn is_world<G: Game>(objs: Seq<Option<Object<G>>>, h: usize) -> bool {
    (h as int) < objs.len() && objs[h as int] matches Some(Object::World(_))
}

/// The handle names a live input.
pub open spec fn is_input<G: Game>(objs: Seq<Option<Object<G>>>, h: usize) -> bool {
    (h as int) < objs.len() && objs[h as int] matches Some(Object::Input(_))
}

/// The handle names a live buffer.
pub open spec fn is_buffer<G: Game>(objs: Seq<Option<Object<G>>>, h: usize) -> bool {
    (h as int) < objs.len() && objs[h as int] matches Some(Object::Buffer(_))
}

/// How allocation changes the table: the lowest free slot (or a fresh one
/// at the end) now holds `obj`; every other slot is untouched.
pub open spec fn fills<G: Game>(
    olds: Seq<Option<Object<G>>>,
    news: Seq<Option<Object<G>>>,
    h: usize,
    obj: Object<G>,
) -> bool {
    &&& h as int <= olds.len()
    &&& (h as int) < olds.len() ==> olds[h as int] is None && news == olds.update(
        h as int,
        Some(obj),
    )
    &&& h as int == olds.len() ==> news == olds.push(Some(obj))
    &&& forall|j: int| 0 <= j < h ==> (#[trigger] olds[j]) is Some
}


/// Some world holding the value the bytes decode to now fills slot `h`.
pub open spec fn makes_decoded_world<G: Game>(
    olds: Seq<Option<Object<G>>>,
    news: Seq<Option<Object<G>>>,
    h: usize,
    bytes: Seq<u8>,
) -> bool {
    exists|w: G::World|
        fills(olds, news, h, Object::World(w)) && (G::World::dec(bytes)->Some_0).0
            == w.deep_view()
}

/// Some input holding the value the bytes decode to now fills slot `h`.
pub open spec fn makes_decoded_input<G: Game>(
    olds: Seq<Option<Object<G>>>,
    news: Seq<Option<Object<G>>>,
    h: usize,
    bytes: Seq<u8>,
) -> bool {
    exists|v: G::Input|
        fills(olds, news, h, Object::Input(v)) && (G::Input::dec(bytes)->Some_0).0
            == v.deep_view()
}

/// The number of live slots.
pub open spec fn live_count<G: Game>(objs: Seq<Option<Object<G>>>) -> int
    decreases objs.len(),
{
    if objs.len() == 0 {
        0
    } else {
        live_count(objs.drop_last()) + if objs.last() is Some {
            1int
        } else {
            0int
        }
    }
}

/// Filling one slot raises the live count by exactly one.
pub proof fn lemma_fill_count<G: Game>(
    olds: Seq<Option<Object<G>>>,
    news: Seq<Option<Object<G>>>,
    h: usize,
    obj: Object<G>,
)
    requires
        fills(olds, news, h, obj),
    ensures
        live_count(news) == live_count(olds) + 1,
{
    if h as int == olds.len() {
        assert(news.drop_last() =~= olds);
    } else {
        lemma_update_count(olds, h as int, Some(obj));
    }
}

/// Emptying one live slot lowers the live count by exactly one.
pub proof fn lemma_free_count<G: Game>(objs: Seq<Option<Object<G>>>, h: usize)
    requires
        is_live(objs, h),
    ensures
        live_count(objs.update(h as int, None)) == live_count(objs) - 1,
{
    lemma_update_count(objs, h as int, None);
}

/// Tables live in the same slots have the same live count.
pub proof fn lemma_count_same_shape<G: Game>(
    objs1: Seq<Option<Object<G>>>,
    objs2: Seq<Option<Object<G>>>,
)
    requires
        objs1.len() == objs2.len(),
        forall|j: int| 0 <= j < objs1.len() ==> ((#[trigger] objs1[j]) is Some <==> objs2[j]
            is Some),
    ensures
        live_count(objs1) == live_count(objs2),
    decreases objs1.len(),
{
    if objs1.len() > 0 {
        assert(forall|j: int|
            0 <= j < objs1.drop_last().len() ==> #[trigger] objs1.drop_last()[j] == objs1[j]
                && objs2.drop_last()[j] == objs2[j]);
        lemma_count_same_shape(objs1.drop_last(), objs2.drop_last());
        assert(objs1.last() == objs1[objs1.len() - 1]);
        assert(objs2.last() == objs2[objs1.len() - 1]);
    }
}

/// How one slot update moves the live count.
proof fn lemma_update_count<G: Game>(objs: Seq<Option<Object<G>>>, i: int, v: Option<Object<G>>)
    requires
        0 <= i < objs.len(),
    ensures
        live_count(objs.update(i, v)) == live_count(objs) + (if v is Some {
            1int
        } else {
            0int
        }) - (if objs[i] is Some {
            1int
        } else {
            0int
        }),
    decreases objs.len(),
{
    let news = objs.update(i, v);
    if i == objs.len() - 1 {
        assert(news.drop_last() =~= objs.drop_last());
        assert(news.last() == v);
    } else {
        assert(news.drop_last() =~= objs.drop_last().update(i, v));
        lemma_update_count(objs.drop_last(), i, v);
        assert(news.last() == objs.last());
    }
}

impl<G: Game> GameInstance<G> {
    /// The number of live handles, counted.
    pub fn live_handles(&self) -> (n: usize)
        ensures
            n as int == live_count(self@),
    {
        let mut n: usize = 0;
        let mut i: usize = 0;
        proof {
            assert(live_count(self@.take(0)) == 0);
        }
        while i < self.objects.len()
            invariant
                i <= self@.len(),
                n <= i,
                n as int == live_count(self@.take(i as int)),
            decreases self@.len() - i,
        {
            proof {
                assert(self@.take(i + 1).drop_last() =~= self@.take(i as int));
                assert(self@.take(i + 1).last() == self@[i as int]);
            }
            let live = match &self.objects[i] {
                Option::Some(_) => true,
                Option::None => false,
            };
            if live {
                n += 1;
            }
            i += 1;
        }
        proof {
            assert(self@.take(self@.len() as int) =~= self@);
        }
        n
    }

    /// A fresh instance with an empty table.
    pub fn new() -> (r: GameInstance<G>)
        ensures
            r@ == Seq::<Option<Object<G>>>::empty(),
    {
        GameInstance { objects: Vec::new() }
    }

    /// Fills the lowest free slot with `object`.
    fn create_object(&mut self, object: Object<G>) -> (h: Handle)
        ensures
            fills(old(self)@, final(self)@, h.0, object),
    {
        let mut index: usize = 0;
        while index < self.objects.len()
            invariant
                index <= self@.len(),
                *self == *old(self),
                forall|j: int| 0 <= j < index ==> (#[trigger] self@[j]) is Some,
            decreases self@.len() - index,
        {
            let free = match &self.objects[index] {
                Option::None => true,
                Option::Some(_) => false,
            };
            if free {
                self.objects.set(index, Some(object));
                return Handle(index);
            }
            index += 1;
        }
        self.objects.push(Some(object));
        Handle(index)
    }

    /// A reference to the live object behind `handle`.
    fn object(&self, handle: Handle) -> (r: &Object<G>)
        requires
            is_live(self@, handle.0),
        ensures
            Some(*r) == self@[handle.0 as int],
    {
        match &self.objects[handle.0 as usize] {
            Some(o) => o,
            None => unreached(),
        }
    }

    /// Creates a world slot.
    fn create_world(&mut self, world: G::World) -> (h: Handle)
        ensures
            fills(old(self)@, final(self)@, h.0, Object::World(world)),
    {
        self.create_object(Object::World(world))
    }

    /// The world at frame 0, freshly allocated.
    pub fn initial_world(&mut self) -> (h: Handle)
        ensures
            exists|w: G::World| fills(old(self)@, final(self)@, h.0, Object::World(w)),
    {
        let world = G::initial_world();
        self.create_world(world)
    }

    /// One world tick: reads the world behind `world` and allocates the
    /// successor world.
    pub fn update_world(&mut self, world: Handle) -> (h: Handle)
        requires
            is_world(old(self)@, world.0),
        ensures
            exists|w: G::World| fills(old(self)@, final(self)@, h.0, Object::World(w)),
    {
        let new_world = {
            let current = match self.object(world) {
                Object::World(w) => w,
                _ => unreached(),
            };
            G::update_world(current)
        };
        self.create_world(new_world)
    }

    /// One player's input applied: allocates the successor world.
    pub fn update_player(&mut self, world: Handle, player_id: u32, input: Handle) -> (h: Handle)
        requires
            is_world(old(self)@, world.0),
            is_input(old(self)@, input.0),
        ensures
            exists|w: G::World| fills(old(self)@, final(self)@, h.0, Object::World(w)),
    {
        let new_world = {
            let current = match self.object(world) {
                Object::World(w) => w,
                _ => unreached(),
            };
            let inp = match self.object(input) {
                Object::Input(i) => i,
                _ => unreached(),
            };
            G::update_player(current, PlayerId::new(player_id), inp)
        };
        self.create_world(new_world)
    }

    /// A player introduced: allocates the successor world.
    pub fn add_player(&mut self, world: Handle, player_id: u32) -> (h: Handle)
        requires
            is_world(old(self)@, world.0),
        ensures
            exists|w: G::World| fills(old(self)@, final(self)@, h.0, Object::World(w)),
    {
        let new_world = {
            let current = match self.object(world) {
                Object::World(w) => w,
                _ => unreached(),
            };
            G::add_player(current, PlayerId::new(player_id))
        };
        self.create_world(new_world)
    }

    /// A player removed: allocates the successor world.
    pub fn remove_player(&mut self, world: Handle, player_id: u32) -> (h: Handle)
        requires
            is_world(old(self)@, world.0),
        ensures
            exists|w: G::World| fills(old(self)@, final(self)@, h.0, Object::World(w)),
    {
        let new_world = {
            let current = match self.object(world) {
                Object::World(w) => w,
                _ => unreached(),
            };
            G::remove_player(current, PlayerId::new(player_id))
        };
        self.create_world(new_world)
    }

    /// Allocates a zeroed transfer buffer of `size` bytes.
    pub fn allocate_buffer(&mut self, size: u32) -> (h: Handle)
        ensures
            exists|b: Vec<u8>|
                #![auto]
                fills(old(self)@, final(self)@, h.0, Object::Buffer(b)) && b@ == Seq::new(
                    size as nat,
                    |i: int| 0u8,
                ),
    {
        let buffer = vec![0u8; size as usize];
        proof {
            assert(buffer@ =~= Seq::new(size as nat, |i: int| 0u8));
        }
        self.create_object(Object::Buffer(buffer))
    }

    /// Empties a slot. Freeing an already-empty slot is a no-op.
    pub fn free_handle(&mut self, handle: Handle)
        requires
            (handle.0 as int) < old(self)@.len(),
        ensures
            final(self)@ == old(self)@.update(handle.0 as int, None),
    {
        self.objects.set(handle.0 as usize, None);
    }

    /// The byte length of a live buffer.
    pub fn buffer_size(&self, buffer: Handle) -> (r: u32)
        requires
            is_buffer(self@, buffer.0),
            buffer_bytes(self@, buffer.0).len() <= u32::MAX,
        ensures
            r as nat == buffer_bytes(self@, buffer.0).len(),
    {
        match self.object(buffer) {
            Object::Buffer(b) => b.len() as u32,
            _ => unreached(),
        }
    }

    /// The bytes of a live buffer, copied out.
    pub fn read_buffer(&self, buffer: Handle) -> (r: Vec<u8>)
        requires
            is_buffer(self@, buffer.0),
        ensures
            r@ == buffer_bytes(self@, buffer.0),
    {
        let b = match self.object(buffer) {
            Object::Buffer(b) => b,
            _ => unreached(),
        };
        let mut out: Vec<u8> = Vec::new();
        let mut i: usize = 0;
        while i < b.len()
            invariant
                i <= b@.len(),
                out@ == b@.take(i as int),
            decreases b@.len() - i,
        {
            out.push(b[i]);
            proof {
                assert(out@ =~= b@.take(i + 1));
            }
            i += 1;
        }
        proof {
            assert(b@.take(b@.len() as int) =~= b@);
        }
        out
    }

    /// Replaces the bytes of a live buffer.
    pub fn write_buffer(&mut self, buffer: Handle, data: &[u8])
        requires
            is_buffer(old(self)@, buffer.0),
        ensures
            final(self)@.len() == old(self)@.len(),
            forall|j: int|
                0 <= j < old(self)@.len() && j != buffer.0 ==> final(self)@[j] == old(self)@[j],
            is_buffer(final(self)@, buffer.0),
            buffer_bytes(final(self)@, buffer.0) == data@,
    {
        let mut copy: Vec<u8> = Vec::new();
        let mut i: usize = 0;
        while i < data.len()
            invariant
                i <= data@.len(),
                copy@ == data@.take(i as int),
            decreases data@.len() - i,
        {
            copy.push(data[i]);
            proof {
                assert(copy@ =~= data@.take(i + 1));
            }
            i += 1;
        }
        proof {
            assert(data@.take(data@.len() as int) =~= data@);
        }
        self.objects.set(buffer.0 as usize, Some(Object::Buffer(copy)));
    }

    /// Decodes a world from a live buffer and allocates it; the buffer
    /// stays live. The bytes must decode, or the call reports failure.
    pub fn deserialize_world(&mut self, buffer: Handle) -> (r: Result<Handle, ReadError>)
        requires
            is_buffer(old(self)@, buffer.0),
        ensures
            r is Ok ==> G::World::dec(buffer_bytes(old(self)@, buffer.0)) is Some,
            r is Ok ==> makes_decoded_world(
                old(self)@,
                final(self)@,
                (r->Ok_0).0,
                buffer_bytes(old(self)@, buffer.0),
            ),
            r is Err ==> G::World::dec(buffer_bytes(old(self)@, buffer.0)) is None && final(self)@
                == old(self)@,
    {
        let world = {
            let bytes = match self.object(buffer) {
                Object::Buffer(b) => b,
                _ => unreached(),
            };
            proof {
                assert(bytes@ == buffer_bytes(old(self)@, buffer.0));
            }
            let mut reader = SliceReader::new(bytes.as_slice());
            let ghost start = reader.remaining();
            match G::World::read(&mut reader) {
                Ok(w) => {
                    proof {
                        assert(G::World::dec(start) is Some);
                        assert(start == buffer_bytes(old(self)@, buffer.0));
                    }
                    w
                },
                Err(e) => {
                    return Err(e);
                },
            }
        };
        let h = self.create_world(world);
        proof {
            let bytes0 = buffer_bytes(old(self)@, buffer.0);
            assert(makes_decoded_world(old(self)@, self@, h.0, bytes0)) by {
                assert(fills(old(self)@, self@, h.0, Object::World(world)));
                assert((G::World::dec(bytes0)->Some_0).0 == world.deep_view());
            }
        }
        Ok(h)
    }

    /// Decodes an input from a live buffer and allocates it; the buffer
    /// stays live. The bytes must decode, or the call reports failure.
    pub fn deserialize_input(&mut self, buffer: Handle) -> (r: Result<Handle, ReadError>)
        requires
            is_buffer(old(self)@, buffer.0),
        ensures
            r is Ok ==> G::Input::dec(buffer_bytes(old(self)@, buffer.0)) is Some,
            r is Ok ==> makes_decoded_input(
                old(self)@,
                final(self)@,
                (r->Ok_0).0,
                buffer_bytes(old(self)@, buffer.0),
            ),
            r is Err ==> G::Input::dec(buffer_bytes(old(self)@, buffer.0)) is None && final(self)@
                == old(self)@,
    {
        let input = {
            let bytes = match self.object(buffer) {
                Object::Buffer(b) => b,
                _ => unreached(),
            };
            proof {
                assert(bytes@ == buffer_bytes(old(self)@, buffer.0));
            }
            let mut reader = SliceReader::new(bytes.as_slice());
            let ghost start = reader.remaining();
            match G::Input::read(&mut reader) {
                Ok(v) => {
                    proof {
                        assert(G::Input::dec(start) is Some);
                        assert(start == buffer_bytes(old(self)@, buffer.0));
                    }
                    v
                },
                Err(e) => {
                    return Err(e);
                },
            }
        };
        let h = self.create_object(Object::Input(input));
        proof {
            let bytes0 = buffer_bytes(old(self)@, buffer.0);
            assert(makes_decoded_input(old(self)@, self@, h.0, bytes0)) by {
                assert(fills(old(self)@, self@, h.0, Object::Input(input)));
                assert((G::Input::dec(bytes0)->Some_0).0 == input.deep_view());
            }
        }
        Ok(h)
    }

    /// Encodes the world behind `world` into a fresh buffer: the buffer
    /// holds exactly that world's `Serialize` encoding.
    pub fn serialize_world(&mut self, world: Handle) -> (h: Handle)
        requires
            is_world(old(self)@, world.0),
        ensures
            exists|b: Vec<u8>|
                #![auto]
                fills(old(self)@, final(self)@, h.0, Object::Buffer(b)) && b@ == world_at(
                    old(self)@,
                    world.0,
                ).enc(),
    {
        let buf = {
            let current = match self.object(world) {
                Object::World(w) => w,
                _ => unreached(),
            };
            proof {
                assert(*current == world_at(old(self)@, world.0));
            }
            let mut buf: Vec<u8> = Vec::new();
            current.write(&mut buf);
            proof {
                assert(buf@ =~= world_at(old(self)@, world.0).enc());
            }
            buf
        };
        let ghost bufv = buf;
        let h = self.create_object(Object::Buffer(buf));
        proof {
            assert(fills(old(self)@, self@, h.0, Object::Buffer(bufv)) && bufv@ == world_at(
                old(self)@,
                world.0,
            ).enc());
        }
        h
    }

    /// Encodes the input behind `input` into a fresh buffer: the buffer
    /// holds exactly that input's `Serialize` encoding.
    pub fn serialize_input(&mut self, input: Handle) -> (h: Handle)
        requires
            is_input(old(self)@, input.0),
        ensures
            exists|b: Vec<u8>|
                #![auto]
                fills(old(self)@, final(self)@, h.0, Object::Buffer(b)) && b@ == input_at(
                    old(self)@,
                    input.0,
                ).enc(),
    {
        let buf = {
            let current = match self.object(input) {
                Object::Input(v) => v,
                _ => unreached(),
            };
            proof {
                assert(*current == input_at(old(self)@, input.0));
            }
            let mut buf: Vec<u8> = Vec::new();
            current.write(&mut buf);
            proof {
                assert(buf@ =~= input_at(old(self)@, input.0).enc());
            }
            buf
        };
        let ghost bufv = buf;
        let h = self.create_object(Object::Buffer(buf));
        proof {
            assert(fills(old(self)@, self@, h.0, Object::Buffer(bufv)) && bufv@ == input_at(
                old(self)@,
                input.0,
            ).enc());
        }
        h
    }

    /// Builds an input from the local keyboard and allocates it.
    pub fn create_input(&mut self, letters: u32, old_letters: u32, other: u32, old_other: u32) -> (h:
        Handle)
        ensures
            exists|v: G::Input| fills(old(self)@, final(self)@, h.0, Object::Input(v)),
    {
        let keyboard_state = KeyboardState::new(letters, old_letters, other, old_other);
        let input = G::create_input(keyboard_state);
        self.create_object(Object::Input(input))
    }

    /// The rectangles that draw the world behind `world`.
    pub fn render(&self, world: Handle, local_player: u32, width: u32, height: u32) -> (r: Vec<
        DrawCommand,
    >)
        requires
            is_world(self@, world.0),
    {
        let current = match self.object(world) {
            Object::World(w) => w,
            _ => unreached(),
        };
        G::render(current, PlayerId::new(local_player), width, height)
    }
}

/// The number of live world slots.
pub open spec fn world_count<G: Game>(objs: Seq<Option<Object<G>>>) -> int
    decreases objs.len(),
{
    if objs.len() == 0 {
        0
    } else {
        world_count(objs.drop_last()) + if objs.last() matches Some(Object::World(_)) {
            1int
        } else {
            0int
        }
    }
}

/// The number of live input slots.
pub open spec fn input_count<G: Game>(objs: Seq<Option<Object<G>>>) -> int
    decreases objs.len(),
{
    if objs.len() == 0 {
        0
    } else {
        input_count(objs.drop_last()) + if objs.last() matches Some(Object::Input(_)) {
            1int
        } else {
            0int
        }
    }
}

/// The number of live buffer slots.
pub open spec fn buffer_count<G: Game>(objs: Seq<Option<Object<G>>>) -> int
    decreases objs.len(),
{
    if objs.len() == 0 {
        0
    } else {
        buffer_count(objs.drop_last()) + if objs.last() matches Some(Object::Buffer(_)) {
            1int
        } else {
            0int
        }
    }
}

/// Every live handle is a world, an input, or a transfer buffer: the counts
/// partition the heap.
pub proof fn lemma_heap_partition<G: Game>(objs: Seq<Option<Object<G>>>)
    ensures
        live_count(objs) == world_count(objs) + input_count(objs) + buffer_count(objs),
    decreases objs.len(),
{
    if objs.len() > 0 {
        lemma_heap_partition(objs.drop_last());
    }
}

/// The bytes of the buffer at slot `h`.
pub open spec fn buffer_bytes<G: Game>(objs: Seq<Option<Object<G>>>, h: usize) -> Seq<u8> {
    match objs[h as int] {
        Some(Object::Buffer(b)) => b@,
        _ => Seq::empty(),
    }
}

/// The world at slot `h`; meaningful under [`is_world`].
pub open spec fn world_at<G: Game>(objs: Seq<Option<Object<G>>>, h: usize) -> G::World {
    match objs[h as int] {
        Some(Object::World(w)) => w,
        _ => arbitrary(),
    }
}

/// The input at slot `h`; meaningful under [`is_input`].
pub open spec fn input_at<G: Game>(objs: Seq<Option<Object<G>>>, h: usize) -> G::Input {
    match objs[h as int] {
        Some(Object::Input(v)) => v,
        _ => arbitrary(),
    }
}

} // verus!
