//! The capability set the lockstep server consumes from a game, and the
//! per-frame delta (`FrameUpdate`) that every tick assembles and applies.
//!
//! A game hands out opaque `World` and `Input` values. Because a hosted game
//! backs them with handles into a guest heap, the trait tracks which values
//! the game currently *accepts* (owns as live), and every operation states
//! exactly how the accepted sets change; `dispose_world` / `dispose_input`
//! are the explicit release points that a handle-owning implementation needs.

use crate::ordered::{
    insert_keyed, insert_sorted, keyed_lookup, lemma_insert_keyed_props, lemma_insert_sorted_props,
    ordmap_insert, ordset_insert, sorted_keys, sorted_unique,
};
use vstd::prelude::*;

verus! {

/// Raised when a serialized input blob cannot be decoded by the game.
#[derive(Debug)]
pub struct DeserializeError;

/// A value that can be rendered as an opaque byte blob for the wire.
pub trait ToBlob {
    /// The blob this value renders as.
    spec fn blob(&self) -> Seq<u8>;

    /// Renders the value.
    fn to_blob(&self) -> (r: Vec<u8>)
        ensures
            r@ == self.blob(),
    ;
}

/// One step of the canonical apply order of a frame update.
#[derive(PartialEq, Eq, Structural, Copy, Clone, Debug)]
pub enum UpdateOp {
    RemovePlayer(u64),
    UpdateWorld,
    UpdatePlayer(u64),
    AddPlayer(u64),
}

/// Ghost image of a [`FrameUpdate`]: the three ordered collections.
#[verifier::ext_equal]
pub ghost struct FrameUpdateView<I> {
    pub new_players: Seq<u64>,
    pub removed_players: Seq<u64>,
    pub player_inputs: Seq<(u64, I)>,
}

/// The canonical order in which one update is applied to the world:
/// every removal (ascending id), then exactly one world tick, then every
/// input (ascending id), then every new player (ascending id).
pub open spec fn canonical_ops<I>(u: FrameUpdateView<I>) -> Seq<UpdateOp> {
    u.removed_players.map_values(|p: u64| UpdateOp::RemovePlayer(p)) + seq![UpdateOp::UpdateWorld]
        + u.player_inputs.map_values(|e: (u64, I)| UpdateOp::UpdatePlayer(e.0))
        + u.new_players.map_values(|p: u64| UpdateOp::AddPlayer(p))
}

/// The delta emitted by one tick: new players, removed players, and the
/// inputs applied this frame, each iterated in ascending player id so that
/// every observer applies the update identically.
pub struct FrameUpdate<G: Game> {
    new_players: Vec<u64>,
    removed_players: Vec<u64>,
    player_inputs: Vec<(u64, G::Input)>,
}

impl<G: Game> View for FrameUpdate<G> {
    type V = FrameUpdateView<G::Input>;

    closed spec fn view(&self) -> FrameUpdateView<G::Input> {
        FrameUpdateView {
            new_players: self.new_players@,
            removed_players: self.removed_players@,
            player_inputs: self.player_inputs@,
        }
    }
}

/// The ordered-set discipline of a frame update.
pub open spec fn update_wf<I>(u: FrameUpdateView<I>) -> bool {
    &&& sorted_unique(u.new_players)
    &&& sorted_unique(u.removed_players)
    &&& sorted_keys(u.player_inputs)
}

/// The view of an update with nothing in it.
pub open spec fn empty_update<I>() -> FrameUpdateView<I> {
    FrameUpdateView {
        new_players: Seq::empty(),
        removed_players: Seq::empty(),
        player_inputs: Seq::empty(),
    }
}

impl<G: Game> FrameUpdate<G> {
    /// Records a newly announced player.
    pub fn new_player(&mut self, player: u64)
        requires
            update_wf(old(self)@),
        ensures
            update_wf(final(self)@),
            final(self)@.new_players == insert_sorted(old(self)@.new_players, player),
            final(self)@.removed_players == old(self)@.removed_players,
            final(self)@.player_inputs == old(self)@.player_inputs,
    {
        proof {
            lemma_insert_sorted_props(self.new_players@, player);
        }
        ordset_insert(&mut self.new_players, player);
    }

    /// Records a removed player.
    pub fn remove_player(&mut self, player: u64)
        requires
            update_wf(old(self)@),
        ensures
            update_wf(final(self)@),
            final(self)@.removed_players == insert_sorted(old(self)@.removed_players, player),
            final(self)@.new_players == old(self)@.new_players,
            final(self)@.player_inputs == old(self)@.player_inputs,
    {
        proof {
            lemma_insert_sorted_props(self.removed_players@, player);
        }
        ordset_insert(&mut self.removed_players, player);
    }

    /// Records the input a player submitted for this frame; an input already
    /// recorded under the same id is replaced and handed back.
    pub fn input(&mut self, player: u64, input: G::Input) -> (replaced: Option<G::Input>)
        requires
            update_wf(old(self)@),
        ensures
            update_wf(final(self)@),
            final(self)@.player_inputs == insert_keyed(old(self)@.player_inputs, player, input),
            replaced == keyed_lookup(old(self)@.player_inputs, player),
            final(self)@.new_players == old(self)@.new_players,
            final(self)@.removed_players == old(self)@.removed_players,
    {
        proof {
            lemma_insert_keyed_props(self.player_inputs@, player, input);
        }
        ordmap_insert(&mut self.player_inputs, player, input)
    }

    /// The announced players, ascending.
    pub fn new_players(&self) -> (r: &Vec<u64>)
        ensures
            r@ == self@.new_players,
    {
        &self.new_players
    }

    /// The removed players, ascending.
    pub fn removed_players(&self) -> (r: &Vec<u64>)
        ensures
            r@ == self@.removed_players,
    {
        &self.removed_players
    }

    /// The applied inputs, keyed by player id, ascending.
    pub fn player_inputs(&self) -> (r: &Vec<(u64, G::Input)>)
        ensures
            r@ == self@.player_inputs,
    {
        &self.player_inputs
    }

    /// The input recorded for `player`, if any.
    pub fn get_input(&self, player: u64) -> (r: Option<&G::Input>)
        ensures
            match r {
                Some(i) => keyed_lookup(self@.player_inputs, player) == Some(*i),
                None => keyed_lookup(self@.player_inputs, player) is None,
            },
    {
        let mut i: usize = 0;
        proof {
            assert(self@.player_inputs.skip(0) =~= self@.player_inputs);
        }
        while i < self.player_inputs.len()
            invariant
                i <= self.player_inputs@.len(),
                keyed_lookup(self@.player_inputs, player) == keyed_lookup(
                    self@.player_inputs.skip(i as int),
                    player,
                ),
            decreases self.player_inputs@.len() - i,
        {
            proof {
                let rest = self@.player_inputs.skip(i as int);
                assert(rest[0] == self@.player_inputs[i as int]);
                assert(rest.drop_first() =~= self@.player_inputs.skip(i + 1));
            }
            if self.player_inputs[i].0 == player {
                return Some(&self.player_inputs[i].1);
            }
            i += 1;
        }
        None
    }

    /// Takes the update apart: announced players, removed players, inputs.
    pub fn into_parts(self) -> (r: (Vec<u64>, Vec<u64>, Vec<(u64, G::Input)>))
        ensures
            r.0@ == self@.new_players,
            r.1@ == self@.removed_players,
            r.2@ == self@.player_inputs,
    {
        (self.new_players, self.removed_players, self.player_inputs)
    }

    /// The canonical apply order for this update, as a checkable value.
    pub fn update_ops(&self) -> (ops: Vec<UpdateOp>)
        ensures
            ops@ == canonical_ops(self@),
    {
        let ghost goal = canonical_ops(self@);
        let mut ops: Vec<UpdateOp> = Vec::new();
        let mut i: usize = 0;
        while i < self.removed_players.len()
            invariant
                i <= self.removed_players@.len(),
                ops@ =~= goal.take(i as int),
                goal == canonical_ops(self@),
            decreases self.removed_players@.len() - i,
        {
            ops.push(UpdateOp::RemovePlayer(self.removed_players[i]));
            i += 1;
        }
        ops.push(UpdateOp::UpdateWorld);
        let ghost off1 = self.removed_players@.len() + 1;
        proof {
            assert(ops@ =~= goal.take(off1 as int));
        }
        let mut j: usize = 0;
        while j < self.player_inputs.len()
            invariant
                j <= self.player_inputs@.len(),
                ops@ =~= goal.take(off1 + j),
                goal == canonical_ops(self@),
                off1 == self.removed_players@.len() + 1,
            decreases self.player_inputs@.len() - j,
        {
            ops.push(UpdateOp::UpdatePlayer(self.player_inputs[j].0));
            proof {
                assert(goal[off1 + j] == UpdateOp::UpdatePlayer(self@.player_inputs[j as int].0));
            }
            j += 1;
        }
        let ghost off2 = off1 + self.player_inputs@.len();
        let mut k: usize = 0;
        while k < self.new_players.len()
            invariant
                k <= self.new_players@.len(),
                ops@ =~= goal.take(off2 + k),
                goal == canonical_ops(self@),
                off2 == self.removed_players@.len() + 1 + self.player_inputs@.len(),
            decreases self.new_players@.len() - k,
        {
            ops.push(UpdateOp::AddPlayer(self.new_players[k]));
            proof {
                assert(goal[off2 + k] == UpdateOp::AddPlayer(self@.new_players[k as int]));
            }
            k += 1;
        }
        proof {
            assert(ops@ =~= goal);
        }
        ops
    }
}

impl<G: Game> PartialEq for FrameUpdate<G> where G::Input: PartialEq {
    /// Structural comparison, for callers outside the proofs; verified
    /// callers compare through the view instead.
    fn eq(&self, other: &Self) -> bool {
        if !(self.new_players == other.new_players && self.removed_players
            == other.removed_players) {
            return false;
        }
        if self.player_inputs.len() != other.player_inputs.len() {
            return false;
        }
        let mut i: usize = 0;
        while i < self.player_inputs.len()
            invariant
                i <= self.player_inputs@.len(),
                self.player_inputs@.len() == other.player_inputs@.len(),
            decreases self.player_inputs@.len() - i,
        {
            if self.player_inputs[i].0 != other.player_inputs[i].0 {
                return false;
            }
            if !(self.player_inputs[i].1 == other.player_inputs[i].1) {
                return false;
            }
            i += 1;
        }
        true
    }
}

impl<G: Game> vstd::std_specs::cmp::PartialEqSpecImpl for FrameUpdate<G> where G::Input: PartialEq {
    open spec fn obeys_eq_spec() -> bool {
        false
    }

    open spec fn eq_spec(&self, other: &Self) -> bool {
        self@ == other@
    }
}

impl<G: Game> Eq for FrameUpdate<G> where G::Input: Eq {

}

impl<G: Game> Default for FrameUpdate<G> {
    /// An update with nothing in it.
    fn default() -> (u: Self)
        ensures
            u@ == empty_update::<G::Input>(),
            update_wf(u@),
    {
        FrameUpdate { new_players: Vec::new(), removed_players: Vec::new(), player_inputs: Vec::new() }
    }
}

/// What the lockstep server needs from a game. The server owns one current
/// `World`; operations return fresh worlds rather than mutating, and the
/// server gives every superseded world (and every consumed input) back
/// through `dispose_world` / `dispose_input`, so that an implementation
/// backed by guest-heap handles can release each handle exactly once.
///
/// Beyond ownership, the trait names what the opaque values mean on the
/// wire: `world_blob` / `input_blob` are the bytes the serialize operations
/// return, fixed per value until it is released; `blob_decodes` says which
/// blobs an input decodes from, making decoding succeed or fail by the
/// bytes alone; and `id_floor` makes every allocated player id fresh — ids
/// are handed out in order, so nothing below the floor is ever reissued.
pub trait Game: Sized {
    type World;
    type Input;

    /// Which worlds this game currently stands behind: for a hosted game,
    /// those whose handle is live in the guest heap.
    spec fn accepts_world(&self, world: &Self::World) -> bool;

    /// Which inputs this game currently stands behind.
    spec fn accepts_input(&self, input: &Self::Input) -> bool;

    /// The bytes a world it stands behind serializes to. For a hosted game,
    /// the guest-heap object's encoding.
    open spec fn world_blob(&self, world: &Self::World) -> Seq<u8> {
        Seq::empty()
    }

    /// The bytes an input it stands behind serializes to.
    open spec fn input_blob(&self, input: &Self::Input) -> Seq<u8> {
        Seq::empty()
    }

    /// Which byte blobs decode to an input.
    open spec fn blob_decodes(&self, bytes: Seq<u8>) -> bool {
        true
    }

    /// The lowest player id not yet allocated: every id handed out so far
    /// lies below it.
    open spec fn id_floor(&self) -> u64 {
        0
    }

    /// The world at frame 0.
    fn initial_world(&mut self) -> (w: Self::World)
        ensures
            final(self).accepts_world(&w),
            !old(self).accepts_world(&w),
            forall|v: Self::World|
                #![trigger old(self).accepts_world(&v)]
                #![trigger final(self).accepts_world(&v)]
                old(self).accepts_world(&v) ==> final(self).accepts_world(&v) && final(self).world_blob(&v) == old(self).world_blob(&v),
            forall|i: Self::Input|
                #![trigger old(self).accepts_input(&i)]
                #![trigger final(self).accepts_input(&i)]
                old(self).accepts_input(&i) ==> final(self).accepts_input(&i) && final(self).input_blob(&i) == old(self).input_blob(&i),
            final(self).id_floor() == old(self).id_floor(),
    ;

    /// One world tick, always exactly once per frame.
    fn update_world(&mut self, world: &Self::World) -> (w: Self::World)
        requires
            old(self).accepts_world(world),
        ensures
            final(self).accepts_world(&w),
            !old(self).accepts_world(&w),
            forall|v: Self::World|
                #![trigger old(self).accepts_world(&v)]
                #![trigger final(self).accepts_world(&v)]
                old(self).accepts_world(&v) ==> final(self).accepts_world(&v) && final(self).world_blob(&v) == old(self).world_blob(&v),
            forall|i: Self::Input|
                #![trigger old(self).accepts_input(&i)]
                #![trigger final(self).accepts_input(&i)]
                old(self).accepts_input(&i) ==> final(self).accepts_input(&i) && final(self).input_blob(&i) == old(self).input_blob(&i),
            final(self).id_floor() == old(self).id_floor(),
    ;

    /// Applies one player's input for this frame.
    fn update_player(&mut self, world: &Self::World, player: u64, input: &Self::Input) -> (w:
        Self::World)
        requires
            old(self).accepts_world(world),
            old(self).accepts_input(input),
        ensures
            final(self).accepts_world(&w),
            !old(self).accepts_world(&w),
            forall|v: Self::World|
                #![trigger old(self).accepts_world(&v)]
                #![trigger final(self).accepts_world(&v)]
                old(self).accepts_world(&v) ==> final(self).accepts_world(&v) && final(self).world_blob(&v) == old(self).world_blob(&v),
            forall|i: Self::Input|
                #![trigger old(self).accepts_input(&i)]
                #![trigger final(self).accepts_input(&i)]
                old(self).accepts_input(&i) ==> final(self).accepts_input(&i) && final(self).input_blob(&i) == old(self).input_blob(&i),
            final(self).id_floor() == old(self).id_floor(),
    ;

    /// Introduces a player into the world.
    fn add_player(&mut self, world: &Self::World, player: u64) -> (w: Self::World)
        requires
            old(self).accepts_world(world),
        ensures
            final(self).accepts_world(&w),
            !old(self).accepts_world(&w),
            forall|v: Self::World|
                #![trigger old(self).accepts_world(&v)]
                #![trigger final(self).accepts_world(&v)]
                old(self).accepts_world(&v) ==> final(self).accepts_world(&v) && final(self).world_blob(&v) == old(self).world_blob(&v),
            forall|i: Self::Input|
                #![trigger old(self).accepts_input(&i)]
                #![trigger final(self).accepts_input(&i)]
                old(self).accepts_input(&i) ==> final(self).accepts_input(&i) && final(self).input_blob(&i) == old(self).input_blob(&i),
            final(self).id_floor() == old(self).id_floor(),
    ;

    /// Removes a player from the world.
    fn remove_player(&mut self, world: &Self::World, player: u64) -> (w: Self::World)
        requires
            old(self).accepts_world(world),
        ensures
            final(self).accepts_world(&w),
            !old(self).accepts_world(&w),
            forall|v: Self::World|
                #![trigger old(self).accepts_world(&v)]
                #![trigger final(self).accepts_world(&v)]
                old(self).accepts_world(&v) ==> final(self).accepts_world(&v) && final(self).world_blob(&v) == old(self).world_blob(&v),
            forall|i: Self::Input|
                #![trigger old(self).accepts_input(&i)]
                #![trigger final(self).accepts_input(&i)]
                old(self).accepts_input(&i) ==> final(self).accepts_input(&i) && final(self).input_blob(&i) == old(self).input_blob(&i),
            final(self).id_floor() == old(self).id_floor(),
    ;

    /// Decodes one input blob: succeeds exactly on the blobs the game
    /// decodes, yielding a fresh input.
    fn deserialize_input(&mut self, from: &[u8]) -> (r: Result<Self::Input, DeserializeError>)
        ensures
            r is Ok <==> old(self).blob_decodes(from@),
            match r {
                Ok(i) => final(self).accepts_input(&i) && !old(self).accepts_input(&i),
                Err(_) => true,
            },
            forall|v: Self::World|
                #![trigger old(self).accepts_world(&v)]
                #![trigger final(self).accepts_world(&v)]
                old(self).accepts_world(&v) ==> final(self).accepts_world(&v) && final(self).world_blob(&v) == old(self).world_blob(&v),
            forall|i: Self::Input|
                #![trigger old(self).accepts_input(&i)]
                #![trigger final(self).accepts_input(&i)]
                old(self).accepts_input(&i) ==> final(self).accepts_input(&i) && final(self).input_blob(&i) == old(self).input_blob(&i),
            final(self).id_floor() == old(self).id_floor(),
    ;

    /// Renders a world as a byte blob for the wire: exactly the world's
    /// named bytes.
    fn serialize_world(&mut self, world: &Self::World) -> (r: Vec<u8>)
        requires
            old(self).accepts_world(world),
        ensures
            r@ == old(self).world_blob(world),
            forall|v: Self::World|
                #![trigger old(self).accepts_world(&v)]
                #![trigger final(self).accepts_world(&v)]
                old(self).accepts_world(&v) ==> final(self).accepts_world(&v) && final(self).world_blob(&v) == old(self).world_blob(&v),
            forall|i: Self::Input|
                #![trigger old(self).accepts_input(&i)]
                #![trigger final(self).accepts_input(&i)]
                old(self).accepts_input(&i) ==> final(self).accepts_input(&i) && final(self).input_blob(&i) == old(self).input_blob(&i),
            final(self).id_floor() == old(self).id_floor(),
    ;

    /// Renders an input as a byte blob for the wire: exactly the input's
    /// named bytes.
    fn serialize_input(&mut self, input: &Self::Input) -> (r: Vec<u8>)
        requires
            old(self).accepts_input(input),
        ensures
            r@ == old(self).input_blob(input),
            forall|v: Self::World|
                #![trigger old(self).accepts_world(&v)]
                #![trigger final(self).accepts_world(&v)]
                old(self).accepts_world(&v) ==> final(self).accepts_world(&v) && final(self).world_blob(&v) == old(self).world_blob(&v),
            forall|i: Self::Input|
                #![trigger old(self).accepts_input(&i)]
                #![trigger final(self).accepts_input(&i)]
                old(self).accepts_input(&i) ==> final(self).accepts_input(&i) && final(self).input_blob(&i) == old(self).input_blob(&i),
            final(self).id_floor() == old(self).id_floor(),
    ;

    /// Allocates a fresh player id: the current floor, which then rises by
    /// one — so no two allocations collide, and every id handed out so far
    /// stays below the floor.
    fn generate_player_id(&mut self) -> (p: u64)
        requires
            old(self).id_floor() < u64::MAX,
        ensures
            p == old(self).id_floor(),
            final(self).id_floor() == old(self).id_floor() + 1,
            forall|v: Self::World|
                #![trigger old(self).accepts_world(&v)]
                #![trigger final(self).accepts_world(&v)]
                old(self).accepts_world(&v) ==> final(self).accepts_world(&v) && final(self).world_blob(&v) == old(self).world_blob(&v),
            forall|i: Self::Input|
                #![trigger old(self).accepts_input(&i)]
                #![trigger final(self).accepts_input(&i)]
                old(self).accepts_input(&i) ==> final(self).accepts_input(&i) && final(self).input_blob(&i) == old(self).input_blob(&i),
    ;

    /// Releases a world the server no longer holds: after the call the
    /// game no longer stands behind it, so it cannot be released twice.
    fn dispose_world(&mut self, world: Self::World)
        requires
            old(self).accepts_world(&world),
        ensures
            !final(self).accepts_world(&world),
            forall|v: Self::World|
                #![trigger old(self).accepts_world(&v)]
                #![trigger final(self).accepts_world(&v)]
                old(self).accepts_world(&v) && v != world ==> final(self).accepts_world(&v)
                    && final(self).world_blob(&v) == old(self).world_blob(&v),
            forall|i: Self::Input|
                #![trigger old(self).accepts_input(&i)]
                #![trigger final(self).accepts_input(&i)]
                old(self).accepts_input(&i) ==> final(self).accepts_input(&i) && final(self).input_blob(&i) == old(self).input_blob(&i),
            final(self).id_floor() == old(self).id_floor(),
    ;

    /// Releases an input the server no longer holds: after the call the
    /// game no longer stands behind it, so it cannot be released twice.
    fn dispose_input(&mut self, input: Self::Input)
        requires
            old(self).accepts_input(&input),
        ensures
            !final(self).accepts_input(&input),
            forall|v: Self::World|
                #![trigger old(self).accepts_world(&v)]
                #![trigger final(self).accepts_world(&v)]
                old(self).accepts_world(&v) ==> final(self).accepts_world(&v) && final(self).world_blob(&v) == old(self).world_blob(&v),
            forall|i: Self::Input|
                #![trigger old(self).accepts_input(&i)]
                #![trigger final(self).accepts_input(&i)]
                old(self).accepts_input(&i) && i != input ==> final(self).accepts_input(&i)
                    && final(self).input_blob(&i) == old(self).input_blob(&i),
            final(self).id_floor() == old(self).id_floor(),
    ;

}

/// Applies one frame update to the world in the canonical order of
/// [`canonical_ops`], releasing every intermediate world it creates;
/// the world passed in stays owned by the caller.
pub fn apply_update<G: Game>(game: &mut G, world: &G::World, update: &FrameUpdate<G>) -> (w: G::World)
    requires
        old(game).accepts_world(world),
        update_wf(update@),
        forall|k: int|
            0 <= k < update@.player_inputs.len() ==> old(game).accepts_input(
                &(#[trigger] update@.player_inputs[k]).1,
            ),
    ensures
        final(game).accepts_world(&w),
        !old(game).accepts_world(&w),
        forall|v: G::World|
            #![trigger old(game).accepts_world(&v)]
            #![trigger final(game).accepts_world(&v)]
            old(game).accepts_world(&v) ==> final(game).accepts_world(&v) && final(game).world_blob(&v) == old(game).world_blob(&v),
        forall|i: G::Input|
            #![trigger old(game).accepts_input(&i)]
            #![trigger final(game).accepts_input(&i)]
            old(game).accepts_input(&i) ==> final(game).accepts_input(&i) && final(game).input_blob(&i) == old(game).input_blob(&i),
        final(game).id_floor() == old(game).id_floor(),
{
    let ops = update.update_ops();
    let ghost pre = *old(game);
    let mut cur: Option<G::World> = None;
    let mut k: usize = 0;
    while k < ops.len()
        invariant
            k <= ops@.len(),
            ops@ == canonical_ops(update@),
            update_wf(update@),
            forall|j: int|
                0 <= j < update@.player_inputs.len() ==> pre.accepts_input(
                    &(#[trigger] update@.player_inputs[j]).1,
                ),
            pre.accepts_world(world),
            forall|v: G::World|
                #![trigger pre.accepts_world(&v)]
                #![trigger game.accepts_world(&v)]
                pre.accepts_world(&v) ==> game.accepts_world(&v) && game.world_blob(&v)
                    == pre.world_blob(&v),
            forall|i: G::Input|
                #![trigger pre.accepts_input(&i)]
                #![trigger game.accepts_input(&i)]
                pre.accepts_input(&i) ==> game.accepts_input(&i) && game.input_blob(&i)
                    == pre.input_blob(&i),
            game.id_floor() == pre.id_floor(),
            match cur {
                Some(w) => game.accepts_world(&w) && !pre.accepts_world(&w),
                None => k == 0,
            },
        decreases ops@.len() - k,
    {
        let op = ops[k];
        let next: G::World = match op {
            UpdateOp::RemovePlayer(p) => {
                match &cur {
                    Some(w) => game.remove_player(w, p),
                    None => game.remove_player(world, p),
                }
            },
            UpdateOp::UpdateWorld => {
                match &cur {
                    Some(w) => game.update_world(w),
                    None => game.update_world(world),
                }
            },
            UpdateOp::UpdatePlayer(p) => {
                proof {
                    lemma_canonical_op_has_input(update@, k as int, p);
                }
                let input = match update.get_input(p) {
                    Some(i) => i,
                    None => {
                        proof {
                            lemma_keyed_lookup_is_entry(update@.player_inputs, p);
                        }
                        unreached()
                    },
                };
                proof {
                    lemma_keyed_lookup_is_entry(update@.player_inputs, p);
                }
                match &cur {
                    Some(w) => game.update_player(w, p, input),
                    None => game.update_player(world, p, input),
                }
            },
            UpdateOp::AddPlayer(p) => {
                match &cur {
                    Some(w) => game.add_player(w, p),
                    None => game.add_player(world, p),
                }
            },
        };
        let prev = cur;
        cur = Some(next);
        match prev {
            Some(w) => game.dispose_world(w),
            None => (),
        }
        k += 1;
    }
    proof {
        assert(canonical_ops(update@).len() >= 1) by {
            assert(canonical_ops(update@)[update@.removed_players.len() as int]
                == UpdateOp::UpdateWorld);
        }
    }
    match cur {
        Some(w) => w,
        None => unreached(),
    }
}

/// If position `k` of the canonical op list is `UpdatePlayer(p)`, the update
/// holds an input under id `p`.
proof fn lemma_canonical_op_has_input<I>(u: FrameUpdateView<I>, k: int, p: u64)
    requires
        0 <= k < canonical_ops(u).len(),
        canonical_ops(u)[k] == UpdateOp::UpdatePlayer(p),
    ensures
        exists|j: int| 0 <= j < u.player_inputs.len() && (#[trigger] u.player_inputs[j]).0 == p,
{
    let ops = canonical_ops(u);
    let nr = u.removed_players.len() as int;
    let ni = u.player_inputs.len() as int;
    if k < nr {
        assert(ops[k] == UpdateOp::RemovePlayer(u.removed_players[k]));
        assert(false);
    } else if k == nr {
        assert(ops[k] == UpdateOp::UpdateWorld);
        assert(false);
    } else if k < nr + 1 + ni {
        let j = k - nr - 1;
        assert(ops[k] == UpdateOp::UpdatePlayer(u.player_inputs[j].0));
        assert(u.player_inputs[j].0 == p);
    } else {
        assert(ops[k] == UpdateOp::AddPlayer(u.new_players[k - nr - 1 - ni]));
        assert(false);
    }
}

/// `keyed_lookup` finds exactly the entry whose key is present.
pub proof fn lemma_keyed_lookup_is_entry<I>(s: Seq<(u64, I)>, p: u64)
    ensures
        (exists|j: int| 0 <= j < s.len() && (#[trigger] s[j]).0 == p) ==> {
            let j = choose|j: int| 0 <= j < s.len() && (#[trigger] s[j]).0 == p;
            keyed_lookup(s, p) is Some && s.contains((p, keyed_lookup(s, p)->Some_0))
        },
        (forall|j: int| 0 <= j < s.len() ==> (#[trigger] s[j]).0 != p) ==> keyed_lookup(s, p)
            is None,
    decreases s.len(),
{
    if s.len() > 0 {
        let tail = s.drop_first();
        lemma_keyed_lookup_is_entry(tail, p);
        assert(forall|j: int| 0 <= j < tail.len() ==> #[trigger] tail[j] == s[j + 1]);
        if s[0].0 == p {
            assert(keyed_lookup(s, p) == Some(s[0].1));
            assert(s.contains((p, s[0].1))) by {
                assert(s[0] == (p, s[0].1));
            }
        } else {
            assert(keyed_lookup(s, p) == keyed_lookup(tail, p));
            if exists|j: int| 0 <= j < s.len() && (#[trigger] s[j]).0 == p {
                let j = choose|j: int| 0 <= j < s.len() && (#[trigger] s[j]).0 == p;
                assert(j > 0);
                assert(tail[j - 1].0 == p);
                assert(exists|j2: int| 0 <= j2 < tail.len() && (#[trigger] tail[j2]).0 == p);
                let e = (p, keyed_lookup(tail, p)->Some_0);
                assert(tail.contains(e));
                let j3 = choose|j3: int| 0 <= j3 < tail.len() && tail[j3] == e;
                assert(s[j3 + 1] == e);
            }
        }
    }
}

} // verus!
