//! The lockstep server: per-client state machines, strictly monotonic input
//! queues, frame counter, the current world, and the tick that assembles one
//! [`FrameUpdate`] per frame.
//!
//! Protocol violations (joining twice, joining in the past, an input for the
//! wrong frame, an input before joining, a malformed input) terminate the
//! offending client; if it was in-game its player is queued for removal in
//! the next tick.

use crate::game::{
    apply_update, update_wf, FrameUpdate, FrameUpdateView, Game,
};
use crate::ordered::{
    insert_all, insert_keyed, keyed_lookup, lemma_insert_all_props, lemma_insert_all_push,
    lemma_insert_keyed_props, sorted_keys, sorted_unique,
};
use std::collections::VecDeque;
use vstd::pervasive::VecAdditionalExecFns;
use vstd::prelude::*;

verus! {

/// A `join` the server refused; the client is already terminated.
pub struct BadJoinError;

/// An `input` the server refused; the client is already terminated.
pub struct BadInputError;

/// Identity of one connected client, allocated monotonically.
#[derive(PartialEq, Eq, Structural, Debug, Hash, Copy, Clone)]
pub struct ClientId(u64);

impl View for ClientId {
    type V = u64;

    closed spec fn view(&self) -> u64 {
        self.0
    }
}

/// One queued `(frame, input)` pair.
struct ClientInput<G: Game> {
    frame: u64,
    input: G::Input,
}

/// Per-client FIFO of inputs with a `next_input_frame` cursor: an input is
/// accepted exactly when it is tagged with the cursor's frame, and the
/// cursor then advances by one.
struct InputQueue<G: Game> {
    next_input_frame: u64,
    inputs: VecDeque<ClientInput<G>>,
}

/// Ghost image of an input queue.
#[verifier::ext_equal]
pub ghost struct QueueView<I> {
    pub next: u64,
    pub entries: Seq<(u64, I)>,
}

impl<G: Game> View for InputQueue<G> {
    type V = QueueView<G::Input>;

    closed spec fn view(&self) -> QueueView<G::Input> {
        QueueView {
            next: self.next_input_frame,
            entries: self.inputs@.map_values(|ci: ClientInput<G>| (ci.frame, ci.input)),
        }
    }
}

/// The payload values of an entry sequence, in order.
pub open spec fn values_of<I>(s: Seq<(u64, I)>) -> Seq<I> {
    s.map_values(|e: (u64, I)| e.1)
}

/// The queue's invariant: entries hold consecutive frames ending right
/// before the cursor. In particular the frames are strictly increasing.
pub open spec fn queue_wf<I>(q: QueueView<I>) -> bool {
    forall|i: int|
        0 <= i < q.entries.len() ==> (#[trigger] q.entries[i]).0 as int == q.next - q.entries.len()
            + i
}

impl<G: Game> InputQueue<G> {
    /// Accepts `input` exactly when `frame` is the next expected frame (and
    /// the cursor can still advance); the cursor then moves to `frame + 1`.
    fn add_input(&mut self, frame: u64, input: G::Input) -> (r: Result<(), BadInputError>)
        requires
            queue_wf(old(self)@),
        ensures
            queue_wf(final(self)@),
            frame == old(self)@.next && frame < u64::MAX ==> r is Ok && final(self)@.next == frame
                + 1 && final(self)@.entries == old(self)@.entries.push((frame, input)),
            !(frame == old(self)@.next && frame < u64::MAX) ==> r is Err && final(self)@ == old(self)@,
    {
        if frame == self.next_input_frame && frame < u64::MAX {
            self.inputs.push_back(ClientInput { frame, input });
            self.next_input_frame = self.next_input_frame + 1;
            proof {
                assert(self@.entries =~= old(self)@.entries.push((frame, input)));
            }
            Ok(())
        } else {
            Err(BadInputError)
        }
    }

    /// Takes the input tagged `frame`, dropping any stale entries tagged
    /// with earlier frames off the head first; the dropped inputs are handed
    /// back so the caller can release them. Entries tagged with later frames
    /// stay queued untouched.
    fn get_input(&mut self, frame: u64) -> (r: (Option<G::Input>, Vec<G::Input>))
        requires
            queue_wf(old(self)@),
        ensures
            queue_wf(final(self)@),
            final(self)@.next == old(self)@.next,
            ({
                let q = old(self)@;
                let first = q.next - q.entries.len();
                if first <= frame < q.next {
                    &&& r.0 == Some(q.entries[frame - first].1)
                    &&& final(self)@.entries == q.entries.skip(frame - first + 1)
                    &&& r.1@ == values_of(q.entries.take(frame - first))
                } else if frame >= q.next {
                    &&& r.0 is None
                    &&& final(self)@.entries == Seq::<(u64, G::Input)>::empty()
                    &&& r.1@ == values_of(q.entries)
                } else {
                    &&& r.0 is None
                    &&& final(self)@.entries == q.entries
                    &&& r.1@ == Seq::<G::Input>::empty()
                }
            }),
    {
        let ghost q = self@;
        let mut dropped: Vec<G::Input> = Vec::new();
        loop
            invariant
                q == old(self)@,
                queue_wf(q),
                queue_wf(self@),
                self@.next == q.next,
                self@.entries.len() <= q.entries.len(),
                self@.entries == q.entries.skip(q.entries.len() - self@.entries.len()),
                dropped@ == values_of(q.entries.take(q.entries.len() - self@.entries.len())),
                forall|i: int|
                    0 <= i < q.entries.len() - self@.entries.len() ==> (
                    #[trigger] q.entries[i]).0 < frame,
            decreases self@.entries.len(),
        {
            proof {
                let done = q.entries.len() - self@.entries.len();
                if self.inputs@.len() > 0 {
                    assert(self@.entries[0] == (self.inputs@[0].frame, self.inputs@[0].input));
                    assert(self@.entries[0] == q.entries[done]);
                }
            }
            match self.inputs.pop_front() {
                None => {
                    proof {
                        assert(self@.entries.len() == 0);
                        assert(q.entries.take(q.entries.len() as int) =~= q.entries);
                        assert(dropped@ =~= values_of(q.entries));
                        let first = q.next - q.entries.len();
                        if first <= frame < q.next {
                            assert(q.entries[frame - first].0 == frame);
                            assert(false);
                        }
                        if frame < first && q.entries.len() > 0 {
                            assert(q.entries[0].0 == first);
                            assert(false);
                        }
                        if frame < first {
                            assert(self@.entries =~= q.entries);
                            assert(dropped@ =~= Seq::<G::Input>::empty());
                        }
                    }
                    return (None, dropped);
                },
                Some(head) => {
                    let ghost done = q.entries.len() - self@.entries.len() - 1;
                    proof {
                        assert(self@.entries =~= q.entries.skip(done).drop_first());
                        assert(q.entries.skip(done).drop_first() =~= q.entries.skip(done + 1));
                        assert((head.frame, head.input) == q.entries[done]);
                    }
                    if head.frame == frame {
                        proof {
                            let first = q.next - q.entries.len();
                            assert(q.entries[done].0 == first + done);
                            assert(done == frame - first);
                            assert(dropped@ =~= values_of(q.entries.take(frame - first)));
                        }
                        return (Some(head.input), dropped);
                    } else if head.frame > frame {
                        self.inputs.push_front(head);
                        proof {
                            assert(self@.entries =~= q.entries.skip(done));
                            let first = q.next - q.entries.len();
                            assert(q.entries[done].0 == first + done);
                            if first <= frame < q.next {
                                assert(q.entries[frame - first].0 == frame);
                                assert(frame - first >= done);
                                assert(false);
                            }
                            if frame >= q.next {
                                assert(q.entries[q.entries.len() - 1].0 == q.next - 1);
                                assert(false);
                            }
                            assert(frame < first);
                            if done > 0 {
                                assert(q.entries[0].0 == first);
                                assert(false);
                            }
                            assert(self@.entries =~= q.entries);
                            assert(dropped@ =~= Seq::<G::Input>::empty());
                        }
                        return (None, dropped);
                    } else {
                        dropped.push(head.input);
                        proof {
                            assert(q.entries.take(done + 1) =~= q.entries.take(done).push(
                                q.entries[done],
                            ));
                            assert(values_of(q.entries.take(done + 1)) =~= values_of(
                                q.entries.take(done),
                            ).push(q.entries[done].1));
                        }
                    }
                },
            }
        }
    }
}

/// A client that asked to join at a future frame and queues inputs while
/// it waits.
struct WaitingClient<G: Game> {
    join_frame: u64,
    inputs: InputQueue<G>,
}

/// A client whose player is part of the simulation.
struct InGameClient<G: Game> {
    player_id: u64,
    inputs: InputQueue<G>,
}

impl<G: Game> WaitingClient<G> {
    /// The waiting-to-playing transition: the queue moves over intact, with
    /// its cursor preserved.
    fn into_playing(self, player_id: u64) -> (r: InGameClient<G>)
        ensures
            r.player_id == player_id,
            r.inputs@ == self.inputs@,
    {
        InGameClient { player_id, inputs: self.inputs }
    }
}

/// The tagged state of one client.
enum ClientState<G: Game> {
    /// Connected but not yet part of the game.
    Connected,
    /// Asked to join; becomes a player on the tick that crosses its frame.
    WaitingForJoin(WaitingClient<G>),
    /// In the game, identified by its player id.
    InGame(InGameClient<G>),
}

/// Ghost image of one client's state.
#[verifier::ext_equal]
pub ghost enum ClientView<I> {
    Connected,
    Waiting { join_frame: u64, queue: QueueView<I> },
    InGame { player_id: u64, queue: QueueView<I> },
}

/// The queued entries of a client, empty for one not yet waiting.
pub open spec fn queue_of<I>(c: ClientView<I>) -> Seq<(u64, I)> {
    match c {
        ClientView::Connected => Seq::empty(),
        ClientView::Waiting { queue, .. } => queue.entries,
        ClientView::InGame { queue, .. } => queue.entries,
    }
}

spec fn client_view<G: Game>(c: ClientState<G>) -> ClientView<G::Input> {
    match c {
        ClientState::Connected => ClientView::Connected,
        ClientState::WaitingForJoin(w) => ClientView::Waiting {
            join_frame: w.join_frame,
            queue: w.inputs@,
        },
        ClientState::InGame(g) => ClientView::InGame { player_id: g.player_id, queue: g.inputs@ },
    }
}

/// Ghost image of the whole server (the opaque world and game aside).
#[verifier::ext_equal]
pub ghost struct ServerView<I> {
    pub frame: u64,
    pub clients: Seq<(u64, ClientView<I>)>,
    pub removed_players: Seq<u64>,
    pub next_client_id: u64,
}

/// The lockstep server.
pub struct Server<G: Game> {
    game: G,
    frame: u64,
    world: G::World,
    clients: Vec<(ClientId, ClientState<G>)>,
    /// Players whose clients disconnected since the last tick; drained into
    /// the next update's removed set.
    removed_players: Vec<u64>,
    next_client_id: u64,
}

impl<G: Game> View for Server<G> {
    type V = ServerView<G::Input>;

    closed spec fn view(&self) -> ServerView<G::Input> {
        ServerView {
            frame: self.frame,
            clients: self.clients@.map_values(
                |e: (ClientId, ClientState<G>)| (e.0@, client_view(e.1)),
            ),
            removed_players: self.removed_players@,
            next_client_id: self.next_client_id,
        }
    }
}

/// The frame and world a freshly connected client must be told about.
pub struct WorldState<'a, G: Game> {
    pub frame: u64,
    pub world: &'a G::World,
}

/// Some entry of `s` holds the value `x`.
pub open spec fn entries_contain<I>(s: Seq<(u64, I)>, x: I) -> bool {
    exists|k: int| 0 <= k < s.len() && (#[trigger] s[k]).1 == x
}

/// The server holds this client id.
pub open spec fn has_client<I>(v: ServerView<I>, id: u64) -> bool {
    exists|i: int| 0 <= i < v.clients.len() && (#[trigger] v.clients[i]).0 == id
}

/// The position of a client id in the table.
pub open spec fn client_index<I>(v: ServerView<I>, id: u64) -> int {
    choose|i: int| 0 <= i < v.clients.len() && (#[trigger] v.clients[i]).0 == id
}

/// A connected-only client's contribution to the join ledger.
pub open spec fn kind_connected<I>(c: ClientView<I>) -> int {
    if c is Connected {
        1
    } else {
        0
    }
}

/// A waiting client's contribution to the join ledger.
pub open spec fn kind_waiting<I>(c: ClientView<I>) -> int {
    if c is Waiting {
        1
    } else {
        0
    }
}

/// How many clients are connected and not yet joined.
pub open spec fn count_connected<I>(cs: Seq<(u64, ClientView<I>)>) -> int
    decreases cs.len(),
{
    if cs.len() == 0 {
        0
    } else {
        count_connected(cs.drop_last()) + kind_connected(cs.last().1)
    }
}

/// How many clients are waiting to join.
pub open spec fn count_waiting<I>(cs: Seq<(u64, ClientView<I>)>) -> int
    decreases cs.len(),
{
    if cs.len() == 0 {
        0
    } else {
        count_waiting(cs.drop_last()) + kind_waiting(cs.last().1)
    }
}

/// An in-game client's player id lies below the game's id floor.
pub open spec fn pid_below<I>(c: ClientView<I>, floor: u64) -> bool {
    match c {
        ClientView::InGame { player_id, .. } => player_id < floor,
        _ => true,
    }
}

/// The counts are never negative.
pub proof fn lemma_counts_nonneg<I>(cs: Seq<(u64, ClientView<I>)>)
    ensures
        count_connected(cs) >= 0,
        count_waiting(cs) >= 0,
    decreases cs.len(),
{
    if cs.len() > 0 {
        lemma_counts_nonneg(cs.drop_last());
    }
}

/// How one replaced client moves the counts.
pub proof fn lemma_counts_update<I>(cs: Seq<(u64, ClientView<I>)>, i: int, e: (u64, ClientView<I>))
    requires
        0 <= i < cs.len(),
    ensures
        count_connected(cs.update(i, e)) == count_connected(cs) + kind_connected(e.1)
            - kind_connected(cs[i].1),
        count_waiting(cs.update(i, e)) == count_waiting(cs) + kind_waiting(e.1) - kind_waiting(
            cs[i].1,
        ),
    decreases cs.len(),
{
    let news = cs.update(i, e);
    if i == cs.len() - 1 {
        assert(news.drop_last() =~= cs.drop_last());
        assert(news.last() == e);
    } else {
        assert(news.drop_last() =~= cs.drop_last().update(i, e));
        lemma_counts_update(cs.drop_last(), i, e);
        assert(news.last() == cs.last());
    }
}

/// How one appended client moves the counts.
pub proof fn lemma_counts_push<I>(cs: Seq<(u64, ClientView<I>)>, e: (u64, ClientView<I>))
    ensures
        count_connected(cs.push(e)) == count_connected(cs) + kind_connected(e.1),
        count_waiting(cs.push(e)) == count_waiting(cs) + kind_waiting(e.1),
{
    assert(cs.push(e).drop_last() =~= cs);
    assert(cs.push(e).last() == e);
}

/// How one removed client moves the counts.
pub proof fn lemma_counts_remove<I>(cs: Seq<(u64, ClientView<I>)>, i: int)
    requires
        0 <= i < cs.len(),
    ensures
        count_connected(cs.remove(i)) == count_connected(cs) - kind_connected(cs[i].1),
        count_waiting(cs.remove(i)) == count_waiting(cs) - kind_waiting(cs[i].1),
    decreases cs.len(),
{
    let news = cs.remove(i);
    if i == cs.len() - 1 {
        assert(news =~= cs.drop_last());
    } else {
        assert(news.drop_last() =~= cs.drop_last().remove(i));
        lemma_counts_remove(cs.drop_last(), i);
        assert(news.last() == cs.last());
    }
}

/// Counting joins never exceeds counting waiting clients.
pub proof fn lemma_joins_le_waiting<I>(cs: Seq<(u64, ClientView<I>)>, frame: u64, i: int)
    requires
        0 <= i <= cs.len(),
    ensures
        joins_before(cs, frame, i) <= count_waiting(cs.take(i)),
        joins_before(cs, frame, i) >= 0,
    decreases i,
{
    if i > 0 {
        lemma_joins_le_waiting(cs, frame, i - 1);
        assert(cs.take(i).drop_last() =~= cs.take(i - 1));
        assert(cs.take(i).last() == cs[i - 1]);
    }
}

/// A prefix holds no more waiting clients than the whole.
pub proof fn lemma_waiting_take_le<I>(cs: Seq<(u64, ClientView<I>)>, i: int)
    requires
        0 <= i <= cs.len(),
    ensures
        count_waiting(cs.take(i)) <= count_waiting(cs),
    decreases cs.len() - i,
{
    if i < cs.len() {
        assert(cs.take(i + 1).drop_last() =~= cs.take(i));
        assert(cs.take(i + 1).last() == cs[i]);
        lemma_waiting_take_le(cs, i + 1);
        assert(cs.take(cs.len() as int) =~= cs);
    } else {
        assert(cs.take(cs.len() as int) =~= cs);
    }
}

/// Frame-local sanity of one client's state at server frame `frame`:
/// queue contiguity, and a waiting client's join frame still ahead. (An
/// in-game client that fell behind may legitimately queue inputs tagged
/// with past frames; the tick drops those.)
pub open spec fn client_ok<I>(frame: u64, c: ClientView<I>) -> bool {
    match c {
        ClientView::Connected => true,
        ClientView::Waiting { join_frame, queue } => {
            &&& queue_wf(queue)
            &&& join_frame >= frame
            &&& join_frame < u64::MAX
            &&& queue.next as int == join_frame + 1 + queue.entries.len()
        },
        ClientView::InGame { queue, .. } => queue_wf(queue),
    }
}

impl<G: Game> Server<G> {
    /// The server's invariant.
    #[verifier::opaque]
    pub closed spec fn wf(&self) -> bool {
        &&& self.game.accepts_world(&self.world)
        &&& forall|i: int, j: int|
            0 <= i < j < self@.clients.len() ==> (#[trigger] self@.clients[i]).0 < (
            #[trigger] self@.clients[j]).0
        &&& forall|i: int|
            0 <= i < self@.clients.len() ==> (#[trigger] self@.clients[i]).0
                < self@.next_client_id
        &&& forall|i: int|
            0 <= i < self@.clients.len() ==> client_ok(self@.frame, (
            #[trigger] self@.clients[i]).1)
        &&& forall|i: int, k: int|
            0 <= i < self@.clients.len() && 0 <= k < queue_of(self@.clients[i].1).len()
                ==> self.game.accepts_input(&(#[trigger] queue_of(self@.clients[i].1)[k]).1)
        &&& forall|i: int, k: int, j: int, l: int|
            #![trigger queue_of(self@.clients[i].1)[k], queue_of(self@.clients[j].1)[l]]
            0 <= i < self@.clients.len() && 0 <= k < queue_of(self@.clients[i].1).len() && 0 <= j
                < self@.clients.len() && 0 <= l < queue_of(self@.clients[j].1).len() && (i != j || k
                != l) ==> queue_of(self@.clients[i].1)[k].1 != queue_of(self@.clients[j].1)[l].1
        &&& forall|i: int|
            0 <= i < self@.clients.len() ==> pid_below(
                (#[trigger] self@.clients[i]).1,
                self.game.id_floor(),
            )
        &&& forall|k: int|
            0 <= k < self@.removed_players.len() ==> (#[trigger] self@.removed_players[k])
                < self.game.id_floor()
        &&& self.game.id_floor() + count_connected(self@.clients) + count_waiting(self@.clients)
            <= self@.next_client_id
    }

    /// The game behind this server, for laws that relate the two.
    pub closed spec fn game_spec(&self) -> G {
        self.game
    }

    /// The current world, owned by the server.
    pub closed spec fn world_spec(&self) -> G::World {
        self.world
    }

    /// Builds a server around a game that has issued no player ids yet: the
    /// world starts at frame 0 with no clients and nothing pending.
    pub fn new(game: G) -> (s: Server<G>)
        requires
            game.id_floor() == 0,
        ensures
            s.wf(),
            s@.frame == 0,
            s@.clients == Seq::<(u64, ClientView<G::Input>)>::empty(),
            s@.removed_players == Seq::<u64>::empty(),
            s@.next_client_id == 0,
    {
        let mut game = game;
        let world = game.initial_world();
        let s = Server {
            game,
            frame: 0,
            world,
            clients: Vec::new(),
            removed_players: Vec::new(),
            next_client_id: 0,
        };
        proof {
            reveal(Server::wf);
            assert(s@.clients =~= Seq::<(u64, ClientView<G::Input>)>::empty());
        }
        s
    }

    /// The current frame counter.
    pub fn frame(&self) -> (f: u64)
        ensures
            f == self@.frame,
    {
        self.frame
    }

    /// The game this server drives.
    pub fn game(&self) -> (g: &G)
        ensures
            *g == self.game_spec(),
    {
        &self.game
    }

    /// The current world.
    pub fn world(&self) -> (w: &G::World)
        ensures
            *w == self.world_spec(),
    {
        &self.world
    }

    /// The position of `client` in the table, if connected.
    fn find_client(&self, client: ClientId) -> (r: Option<usize>)
        ensures
            match r {
                Some(i) => i < self@.clients.len() && self@.clients[i as int].0 == client@,
                None => !has_client(self@, client@),
            },
    {
        let mut i: usize = 0;
        while i < self.clients.len()
            invariant
                i <= self@.clients.len(),
                forall|j: int| 0 <= j < i ==> (#[trigger] self@.clients[j]).0 != client@,
            decreases self@.clients.len() - i,
        {
            if self.clients[i].0 == client {
                return Some(i);
            }
            i += 1;
        }
        None
    }

    /// A new client connected. It starts in the connected-but-not-joined
    /// state under a fresh id; the returned snapshot of the current frame
    /// and world is what must be sent back to it.
    pub fn client_connected<'a>(&'a mut self) -> (r: (ClientId, WorldState<'a, G>))
        requires
            old(self).wf(),
            old(self)@.next_client_id < u64::MAX,
        ensures
            final(self).wf(),
            final(self)@.frame == old(self)@.frame,
            final(self)@.removed_players == old(self)@.removed_players,
            final(self)@.next_client_id == old(self)@.next_client_id + 1,
            final(self)@.clients == old(self)@.clients.push(
                (old(self)@.next_client_id, ClientView::Connected),
            ),
            final(self).game_spec() == old(self).game_spec(),
            final(self).world_spec() == old(self).world_spec(),
            r.0@ == old(self)@.next_client_id,
            r.1.frame == old(self)@.frame,
            *r.1.world == old(self).world_spec(),
    {
        let id = ClientId(self.next_client_id);
        self.next_client_id = self.next_client_id + 1;
        self.clients.push((id, ClientState::Connected));
        proof {
            reveal(Server::wf);
            assert(self@.clients =~= old(self)@.clients.push(
                (old(self)@.next_client_id, ClientView::Connected),
            ));
            assert forall|i: int, k: int|
                0 <= i < self@.clients.len() && 0 <= k < queue_of(self@.clients[i].1).len()
                implies self.game.accepts_input(
                &(#[trigger] queue_of(self@.clients[i].1)[k]).1,
            ) by {
                assert(i < old(self)@.clients.len());
                assert(self@.clients[i] == old(self)@.clients[i]);
            }
            lemma_counts_push(
                old(self)@.clients,
                (old(self)@.next_client_id, ClientView::Connected),
            );
            assert forall|i: int| 0 <= i < self@.clients.len() implies pid_below(
                (#[trigger] self@.clients[i]).1,
                self.game.id_floor(),
            ) by {
                if i < old(self)@.clients.len() {
                    assert(self@.clients[i] == old(self)@.clients[i]);
                    assert(pid_below(old(self)@.clients[i].1, old(self).game.id_floor()));
                }
            }
            assert forall|k: int| 0 <= k < self@.removed_players.len() implies (
            #[trigger] self@.removed_players[k]) < self.game.id_floor() by {
                assert(old(self)@.removed_players[k] < old(self).game.id_floor());
            }
        }
        (id, WorldState { frame: self.frame, world: &self.world })
    }

    /// A connected client asked to join at `on_frame`. Joining succeeds
    /// exactly when the client has not joined before and `on_frame` is not
    /// in the past (and leaves room for the first input's frame); otherwise
    /// the client is terminated, exactly as by [`Self::client_disconnected`].
    pub fn client_joined(&mut self, client: ClientId, on_frame: u64) -> (r: Result<
        (),
        BadJoinError,
    >)
        requires
            old(self).wf(),
            has_client(old(self)@, client@),
        ensures
            final(self).wf(),
            final(self)@.frame == old(self)@.frame,
            final(self)@.next_client_id == old(self)@.next_client_id,
            final(self).world_spec() == old(self).world_spec(),
            ({
                let i = client_index(old(self)@, client@);
                let st = old(self)@.clients[i].1;
                if st is Connected && on_frame >= old(self)@.frame && on_frame < u64::MAX {
                    &&& r is Ok
                    &&& final(self)@.clients == old(self)@.clients.update(
                        i,
                        (
                            client@,
                            ClientView::Waiting {
                                join_frame: on_frame,
                                queue: QueueView {
                                    next: (on_frame + 1) as u64,
                                    entries: Seq::empty(),
                                },
                            },
                        ),
                    )
                    &&& final(self)@.removed_players == old(self)@.removed_players
                    &&& final(self).game_spec() == old(self).game_spec()
                } else {
                    &&& r is Err
                    &&& final(self)@.clients == old(self)@.clients.remove(i)
                    &&& final(self)@.removed_players == (match st {
                        ClientView::InGame { player_id, .. } => old(self)@.removed_players.push(
                            player_id,
                        ),
                        _ => old(self)@.removed_players,
                    })
                }
            }),
    {
        let idx = match self.find_client(client) {
            Some(i) => i,
            None => unreached(),
        };
        proof {
            reveal(Server::wf);
            lemma_client_index_is(old(self)@, idx as int);
        }
        let accepted = match &self.clients[idx].1 {
            ClientState::Connected => on_frame >= self.frame && on_frame < u64::MAX,
            _ => false,
        };
        if accepted {
            let queue = InputQueue { next_input_frame: on_frame + 1, inputs: VecDeque::new() };
            self.clients.set(
                idx,
                (client, ClientState::WaitingForJoin(WaitingClient { join_frame: on_frame, inputs: queue })),
            );
            proof {
                reveal(Server::wf);
                let nv = ClientView::Waiting {
                    join_frame: on_frame,
                    queue: QueueView { next: (on_frame + 1) as u64, entries: Seq::<(u64, G::Input)>::empty() },
                };
                assert(self@.clients =~~= old(self)@.clients.update(idx as int, (client@, nv)));
                assert(queue_of(nv).len() == 0);
                assert forall|i: int, k: int|
                    0 <= i < self@.clients.len() && 0 <= k < queue_of(self@.clients[i].1).len()
                    implies self.game.accepts_input(
                    &(#[trigger] queue_of(self@.clients[i].1)[k]).1,
                ) by {
                    assert(i != idx as int);
                    assert(self@.clients[i] == old(self)@.clients[i]);
                    assert(old(self).game.accepts_input(
                        &queue_of(old(self)@.clients[i].1)[k].1,
                    ));
                }
                assert forall|i: int, k: int, j: int, l: int|
                    #![trigger queue_of(self@.clients[i].1)[k], queue_of(self@.clients[j].1)[l]]
                    0 <= i < self@.clients.len() && 0 <= k < queue_of(self@.clients[i].1).len()
                        && 0 <= j < self@.clients.len() && 0 <= l < queue_of(
                        self@.clients[j].1,
                    ).len() && (i != j || k != l) implies queue_of(self@.clients[i].1)[k].1
                    != queue_of(self@.clients[j].1)[l].1 by {
                    assert(i != idx as int && j != idx as int);
                    assert(self@.clients[i] == old(self)@.clients[i]);
                    assert(self@.clients[j] == old(self)@.clients[j]);
                    assert(queue_of(old(self)@.clients[i].1)[k].1 != queue_of(
                        old(self)@.clients[j].1,
                    )[l].1);
                }
                lemma_counts_update(old(self)@.clients, idx as int, (client@, nv));
                assert forall|i: int| 0 <= i < self@.clients.len() implies pid_below(
                    (#[trigger] self@.clients[i]).1,
                    self.game.id_floor(),
                ) by {
                    if i != idx as int {
                        assert(self@.clients[i] == old(self)@.clients[i]);
                        assert(pid_below(old(self)@.clients[i].1, old(self).game.id_floor()));
                    }
                }
                assert forall|k: int| 0 <= k < self@.removed_players.len() implies (
                #[trigger] self@.removed_players[k]) < self.game.id_floor() by {
                    assert(old(self)@.removed_players[k] < old(self).game.id_floor());
                }
            }
            Ok(())
        } else {
            self.client_disconnected(client);
            Err(BadJoinError)
        }
    }

    /// A client sent an input tagged `frame`, still serialized. The input is
    /// decoded and accepted exactly when the client has joined (or is
    /// waiting to join), the blob decodes, and `frame` is the client's next
    /// expected frame; any violation terminates the client, exactly as by
    /// [`Self::client_disconnected`].
    pub fn client_input(&mut self, client: ClientId, frame: u64, serialized: &[u8]) -> (r: Result<
        (),
        BadInputError,
    >)
        requires
            old(self).wf(),
            has_client(old(self)@, client@),
        ensures
            final(self).wf(),
            final(self)@.frame == old(self)@.frame,
            final(self)@.next_client_id == old(self)@.next_client_id,
            final(self).world_spec() == old(self).world_spec(),
            ({
                let i = client_index(old(self)@, client@);
                let st = old(self)@.clients[i].1;
                match st {
                    ClientView::Connected => r is Err && final(self)@.clients == old(self)@.clients.remove(i) && final(self)@.removed_players == old(self)@.removed_players,
                    ClientView::Waiting { join_frame, queue } => {
                        &&& (r is Ok ==> frame == queue.next && frame < u64::MAX
                            && exists|inp: G::Input|
                            final(self)@.clients == old(self)@.clients.update(
                                i,
                                (
                                    client@,
                                    ClientView::Waiting {
                                        join_frame,
                                        queue: QueueView {
                                            next: (frame + 1) as u64,
                                            entries: queue.entries.push((frame, inp)),
                                        },
                                    },
                                ),
                            ))
                        &&& (r is Ok ==> final(self)@.removed_players == old(self)@.removed_players)
                        &&& (r is Err ==> final(self)@.clients == old(self)@.clients.remove(i)
                            && final(self)@.removed_players == old(self)@.removed_players)
                        &&& (r is Ok <==> frame == queue.next && frame < u64::MAX && old(
                            self,
                        ).game_spec().blob_decodes(serialized@))
                    },
                    ClientView::InGame { player_id, queue } => {
                        &&& (r is Ok ==> frame == queue.next && frame < u64::MAX
                            && exists|inp: G::Input|
                            final(self)@.clients == old(self)@.clients.update(
                                i,
                                (
                                    client@,
                                    ClientView::InGame {
                                        player_id,
                                        queue: QueueView {
                                            next: (frame + 1) as u64,
                                            entries: queue.entries.push((frame, inp)),
                                        },
                                    },
                                ),
                            ))
                        &&& (r is Ok ==> final(self)@.removed_players == old(self)@.removed_players)
                        &&& (r is Err ==> final(self)@.clients == old(self)@.clients.remove(i)
                            && final(self)@.removed_players == old(self)@.removed_players.push(
                            player_id,
                        ))
                        &&& (r is Ok <==> frame == queue.next && frame < u64::MAX && old(
                            self,
                        ).game_spec().blob_decodes(serialized@))
                    },
                }
            }),
    {
        let idx = match self.find_client(client) {
            Some(i) => i,
            None => unreached(),
        };
        proof {
            reveal(Server::wf);
            lemma_client_index_is(old(self)@, idx as int);
        }
        let joined = match &self.clients[idx].1 {
            ClientState::Connected => false,
            _ => true,
        };
        if !joined {
            self.client_disconnected(client);
            return Err(BadInputError);
        }
        let des = self.game.deserialize_input(serialized);
        proof {
            lemma_wf_monotone_game(*old(self), *self);
        }
        let cid = self.clients[idx].0;
        let mut slot = (cid, ClientState::Connected);
        self.clients.set_and_swap(idx, &mut slot);
        let (_, state) = slot;
        proof {
            assert(client_view(state) == old(self)@.clients[idx as int].1);
        }
        let accept = match (&state, &des) {
            (ClientState::WaitingForJoin(w), Ok(_)) => frame == w.inputs.next_input_frame && frame
                < u64::MAX,
            (ClientState::InGame(g), Ok(_)) => frame == g.inputs.next_input_frame && frame
                < u64::MAX,
            _ => false,
        };
        proof {
            assert(des is Ok <==> old(self).game_spec().blob_decodes(serialized@));
            match old(self)@.clients[idx as int].1 {
                ClientView::Connected => {
                    assert(false);
                },
                ClientView::Waiting { queue, .. } => {
                    assert(accept == (des is Ok && frame == queue.next && frame < u64::MAX));
                },
                ClientView::InGame { queue, .. } => {
                    assert(accept == (des is Ok && frame == queue.next && frame < u64::MAX));
                },
            }
        }
        if accept {
            let input = match des {
                Ok(input) => input,
                Err(_) => unreached(),
            };
            let ghost ginp = input;
            let new_state = match state {
                ClientState::WaitingForJoin(mut w) => {
                    let ghost q0 = w.inputs@;
                    let r = w.inputs.add_input(frame, input);
                    proof {
                        assert(r is Ok);
                        assert(w.inputs@.entries == q0.entries.push((frame, ginp)));
                    }
                    ClientState::WaitingForJoin(w)
                },
                ClientState::InGame(mut g) => {
                    let ghost q0 = g.inputs@;
                    let r = g.inputs.add_input(frame, input);
                    proof {
                        assert(r is Ok);
                        assert(g.inputs@.entries == q0.entries.push((frame, ginp)));
                    }
                    ClientState::InGame(g)
                },
                ClientState::Connected => unreached(),
            };
            let ghost nv = client_view(new_state);
            self.clients.set(idx, (cid, new_state));
            proof {
                assert(self@.clients =~~= old(self)@.clients.update(idx as int, (client@, nv)));
                lemma_wf_after_accept(*old(self), *self, idx as int, frame, ginp);
            }
            Ok(())
        } else {
            match des {
                Ok(input) => {
                    self.game.dispose_input(input);
                },
                Err(_) => (),
            }
            self.clients.set(idx, (cid, state));
            proof {
                reveal(Server::wf);
                assert(self@.clients =~~= old(self)@.clients);
                assert(self@ =~~= ServerView {
                    frame: old(self)@.frame,
                    clients: self@.clients,
                    removed_players: old(self)@.removed_players,
                    next_client_id: old(self)@.next_client_id,
                });
                lemma_wf_monotone_game(*old(self), *self);
            }
            self.client_disconnected(client);
            Err(BadInputError)
        }
    }

    /// Advances the simulation by one frame: drains the pending removals
    /// into the update, turns every client waiting for the current frame
    /// into a player under a freshly allocated id, collects the input each
    /// in-game client queued for this frame, applies the update to the world
    /// in the canonical order, releases every input and world this tick
    /// consumed, and advances the frame counter. The returned update is what
    /// must be broadcast to every connected client.
    #[verifier::rlimit(80)]
    pub fn game_tick(&mut self) -> (update: FrameUpdate<G>)
        requires
            old(self).wf(),
            old(self)@.frame < u64::MAX,
        ensures
            final(self).wf(),
            update_wf(update@),
            final(self)@.frame == old(self)@.frame + 1,
            exists|ids: Seq<u64>|
                tick_rel(old(self)@, final(self)@, update@, ids) && (forall|k: int|
                    0 <= k < ids.len() ==> #[trigger] ids[k] == old(self).game_spec().id_floor()
                        + k) && final(self).game_spec().id_floor() == old(
                    self,
                ).game_spec().id_floor() + ids.len(),
            forall|p: u64|
                #![trigger update@.new_players.contains(p)]
                update@.new_players.contains(p) ==> !update@.removed_players.contains(p),
            forall|p: u64, k: int|
                #![trigger update@.new_players.contains(p), update@.player_inputs[k]]
                update@.new_players.contains(p) && 0 <= k < update@.player_inputs.len()
                    ==> update@.player_inputs[k].0 != p,
            tick_inputs_ok(
                final(self).game_spec(),
                final(self)@.clients,
                update@.player_inputs,
                Seq::empty(),
            ),
            forall|k: int|
                0 <= k < update@.player_inputs.len() ==> final(self).game_spec().input_blob(
                    &(#[trigger] update@.player_inputs[k]).1,
                ) == old(self).game_spec().input_blob(&update@.player_inputs[k].1),
    {
        proof {
            reveal(Server::wf);
        }
        let ghost pre = old(self)@;
        let ghost floor0 = self.game.id_floor();
        let mut update: FrameUpdate<G> = Default::default();
        let mut grave: Vec<G::Input> = Vec::new();
        let mut r: usize = 0;
        #[verifier::loop_isolation(false)]
        while r < self.removed_players.len()
            invariant
                r <= pre.removed_players.len(),
                *self == *old(self),
                update_wf(update@),
                update@.removed_players == insert_all(
                    Seq::empty(),
                    pre.removed_players.take(r as int),
                ),
                update@.new_players == Seq::<u64>::empty(),
                update@.player_inputs == Seq::<(u64, G::Input)>::empty(),
            decreases pre.removed_players.len() - r,
        {
            let p = self.removed_players[r];
            proof {
                assert(pre.removed_players.take(r as int).push(p) =~= pre.removed_players.take(
                    r + 1,
                ));
                lemma_insert_all_push(Seq::empty(), pre.removed_players.take(r as int), p);
            }
            update.remove_player(p);
            r += 1;
        }
        proof {
            assert(pre.removed_players.take(pre.removed_players.len() as int)
                =~= pre.removed_players);
        }
        self.removed_players.clear();
        let n = self.clients.len();
        let ghost mut ids: Seq<u64> = Seq::empty();
        let mut idx: usize = 0;
        #[verifier::loop_isolation(false)]
        while idx < n
            invariant
                idx <= n,
                n == pre.clients.len(),
                self@.clients.len() == n,
                self@.frame == pre.frame,
                self@.next_client_id == pre.next_client_id,
                self@.removed_players == Seq::<u64>::empty(),
                self.world == old(self).world,
                self.game.accepts_world(&self.world),
                forall|i: int| idx <= i < n ==> self@.clients[i] == pre.clients[i],
                forall|i: int|
                    0 <= i < idx ==> (#[trigger] self@.clients[i]).0 == pre.clients[i].0
                        && client_step(
                        pre.clients[i].1,
                        self@.clients[i].1,
                        pre.frame,
                        ids,
                        joins_before(pre.clients, pre.frame, i),
                    ) && client_ok((pre.frame + 1) as u64, self@.clients[i].1),
                ids.len() == joins_before(pre.clients, pre.frame, idx as int),
                update_wf(update@),
                update@.removed_players == insert_all(Seq::empty(), pre.removed_players),
                update@.new_players == insert_all(Seq::empty(), ids),
                update@.player_inputs == tick_inputs(pre.clients.take(idx as int), pre.frame),
                tick_inputs_ok(self.game, self@.clients, update@.player_inputs, grave@),
                self.game.id_floor() == floor0 + ids.len(),
                floor0 + ids.len() <= u64::MAX,
                count_connected(self@.clients) == count_connected(pre.clients),
                count_waiting(self@.clients) + ids.len() == count_waiting(pre.clients),
                forall|k: int| 0 <= k < ids.len() ==> #[trigger] ids[k] == floor0 + k,
                forall|i: G::Input|
                    #![trigger old(self).game.accepts_input(&i)]
                    #![trigger self.game.accepts_input(&i)]
                    old(self).game.accepts_input(&i) ==> self.game.accepts_input(&i)
                        && self.game.input_blob(&i) == old(self).game.input_blob(&i),
            decreases n - idx,
        {
            let ghost cs0 = self@.clients;
            let ghost upd0 = update@.player_inputs;
            let ghost grave_at_head = grave@;
            let cid = self.clients[idx].0;
            let mut slot = (cid, ClientState::Connected);
            self.clients.set_and_swap(idx, &mut slot);
            let (_, state) = slot;
            proof {
                assert(client_view(state) == pre.clients[idx as int].1);
                assert(self@.clients =~~= cs0.update(
                    idx as int,
                    (pre.clients[idx as int].0, ClientView::Connected),
                ));
            }
            let new_state: ClientState<G> = match state {
                ClientState::Connected => ClientState::Connected,
                ClientState::WaitingForJoin(waiting) => {
                    if waiting.join_frame == self.frame {
                        proof {
                            assert(is_join(pre.clients[idx as int].1, pre.frame));
                            assert(joins_before(pre.clients, pre.frame, idx + 1) == ids.len() + 1);
                            lemma_joins_le_waiting(pre.clients, pre.frame, idx + 1);
                            lemma_waiting_take_le(pre.clients, idx + 1);
                            lemma_counts_nonneg(pre.clients);
                            assert(floor0 + count_connected(pre.clients) + count_waiting(
                                pre.clients,
                            ) <= pre.next_client_id);
                            assert(self.game.id_floor() < u64::MAX);
                        }
                        let player_id = self.game.generate_player_id();
                        update.new_player(player_id);
                        proof {
                            lemma_insert_all_push(Seq::empty(), ids, player_id);
                            ids = ids.push(player_id);
                        }
                        ClientState::InGame(waiting.into_playing(player_id))
                    } else {
                        ClientState::WaitingForJoin(waiting)
                    }
                },
                ClientState::InGame(mut ingame) => {
                    let (taken, mut dropped) = ingame.inputs.get_input(self.frame);
                    grave.append(&mut dropped);
                    match taken {
                        Some(v) => {
                            let replaced = update.input(ingame.player_id, v);
                            match replaced {
                                Some(r0) => grave.push(r0),
                                None => (),
                            }
                        },
                        None => (),
                    }
                    ClientState::InGame(ingame)
                },
            };
            let ghost nv = client_view(new_state);
            self.clients.set(idx, (cid, new_state));
            proof {
                assert(self@.clients =~~= cs0.update(idx as int, (pre.clients[idx as int].0, nv)));
                let csn = self@.clients;
                assert(pre.clients.take(idx + 1).drop_last() =~= pre.clients.take(idx as int));
                assert(pre.clients.take(idx + 1).last() == pre.clients[idx as int]);
                match pre.clients[idx as int].1 {
                    ClientView::Connected => {
                        assert(csn =~~= cs0);
                        assert(tick_inputs(pre.clients.take(idx + 1), pre.frame) == upd0);
                    },
                    ClientView::Waiting { join_frame, queue } => {
                        assert(tick_inputs(pre.clients.take(idx + 1), pre.frame) == upd0);
                        if join_frame == pre.frame {
                            assert(nv == ClientView::InGame {
                                player_id: ids.last(),
                                queue,
                            });
                            assert(queue_of(nv) == queue_of(pre.clients[idx as int].1));
                        } else {
                            assert(csn =~~= cs0);
                        }
                        assert forall|i: int|
                            0 <= i < idx + 1 implies (#[trigger] csn[i]).0 == pre.clients[i].0
                            && client_step(
                            pre.clients[i].1,
                            csn[i].1,
                            pre.frame,
                            ids,
                            joins_before(pre.clients, pre.frame, i),
                        ) && client_ok((pre.frame + 1) as u64, csn[i].1) by {
                            if i < idx {
                                assert(csn[i] == cs0[i]);
                            }
                        }
                        assert forall|i: int, k: int|
                            0 <= i < csn.len() && 0 <= k < queue_of(csn[i].1).len()
                            implies queue_of(csn[i].1)[k] == queue_of(cs0[i].1)[k] && 0 <= k
                            < queue_of(cs0[i].1).len() by {
                            if i != idx {
                                assert(csn[i] == cs0[i]);
                            }
                        }
                    },
                    ClientView::InGame { player_id, queue } => {
                        let first = queue.next - queue.entries.len();
                        if first <= pre.frame < queue.next {
                            assert(grave@ =~= (match keyed_lookup(upd0, player_id) {
                                Some(r0) => grave_at_head + values_of(
                                    queue.entries.take(pre.frame - first),
                                ) + seq![r0],
                                None => grave_at_head + values_of(
                                    queue.entries.take(pre.frame - first),
                                ),
                            }));
                        } else if pre.frame >= queue.next {
                            assert(grave@ =~= grave_at_head + values_of(queue.entries));
                        } else {
                            assert(csn =~~= cs0);
                            assert(grave@ =~= grave_at_head);
                        }
                        lemma_tick_ok_ingame(
                            self.game,
                            cs0,
                            csn,
                            idx as int,
                            pre.frame,
                            upd0,
                            update@.player_inputs,
                            grave_at_head,
                            grave@,
                            player_id,
                            queue,
                        );
                        if first <= pre.frame < queue.next {
                            assert(update@.player_inputs == insert_keyed(
                                upd0,
                                player_id,
                                queue.entries[pre.frame - first].1,
                            ));
                        }
                        assert(tick_inputs(pre.clients.take(idx + 1), pre.frame)
                            == update@.player_inputs);
                    },
                }
                assert(ids.len() == joins_before(pre.clients, pre.frame, idx + 1));
                assert(count_connected(csn) == count_connected(pre.clients) && count_waiting(csn)
                    + ids.len() == count_waiting(pre.clients)) by {
                    if csn =~~= cs0 {
                    } else {
                        assert(csn == cs0.update(idx as int, (pre.clients[idx as int].0, nv)));
                        lemma_counts_update(cs0, idx as int, (pre.clients[idx as int].0, nv));
                        assert(cs0[idx as int] == pre.clients[idx as int]);
                    }
                }
            }
            idx += 1;
        }
        proof {
            assert(pre.clients.take(n as int) =~= pre.clients);
        }
        proof {
            lemma_tick_inputs_entries(pre.clients, pre.frame);
            assert forall|k: int| 0 <= k < update@.player_inputs.len() implies old(
                self,
            ).game.accepts_input(&(#[trigger] update@.player_inputs[k]).1) && old(
                self,
            ).game.input_blob(&update@.player_inputs[k].1) == self.game.input_blob(
                &update@.player_inputs[k].1,
            ) by {
                let e = update@.player_inputs[k];
                let i = choose|i: int|
                    0 <= i < pre.clients.len() && ((#[trigger] pre.clients[i]).1
                        matches ClientView::InGame { player_id, queue } && e.0 == player_id
                        && entries_contain(queue.entries, e.1));
                let q = queue_of(pre.clients[i].1);
                let l = choose|l: int| 0 <= l < q.len() && (#[trigger] q[l]).1 == e.1;
                assert(old(self).game.accepts_input(&q[l].1));
            }
        }
        let ghost mid_game = self.game;
        release_loose_inputs(&mut self.game, grave);
        proof {
            assert forall|k: int| 0 <= k < update@.player_inputs.len() implies self.game.accepts_input(
                &(#[trigger] update@.player_inputs[k]).1,
            ) && self.game.input_blob(&update@.player_inputs[k].1) == mid_game.input_blob(
                &update@.player_inputs[k].1,
            ) by {
                let v = update@.player_inputs[k].1;
                if grave@.contains(v) {
                    let g = choose|g: int| 0 <= g < grave@.len() && grave@[g] == v;
                    assert(grave@[g] != update@.player_inputs[k].1);
                }
            }
        }
        let new_world = apply_update(&mut self.game, &self.world, &update);
        let mut stale = new_world;
        core::mem::swap(&mut self.world, &mut stale);
        self.game.dispose_world(stale);
        self.frame = self.frame + 1;
        proof {
            reveal(Server::wf);
            let ghost post = self@;
            assert(tick_rel(pre, post, update@, ids));
            assert forall|i: int, k: int|
                0 <= i < post.clients.len() && 0 <= k < queue_of(post.clients[i].1).len()
                implies self.game.accepts_input(
                &(#[trigger] queue_of(post.clients[i].1)[k]).1,
            ) by {}
            // every client's player id stays below the risen floor
            assert forall|i: int| 0 <= i < post.clients.len() implies pid_below(
                (#[trigger] post.clients[i]).1,
                self.game.id_floor(),
            ) by {
                let rank = joins_before(pre.clients, pre.frame, i);
                assert(client_step(pre.clients[i].1, post.clients[i].1, pre.frame, ids, rank));
                assert(pid_below(pre.clients[i].1, floor0));
            }
            // the ledger: the floor rose by exactly the number of joins
            assert(count_waiting(post.clients) + ids.len() == count_waiting(pre.clients));
            assert(count_connected(post.clients) == count_connected(pre.clients));
            // announced ids are at or above the old floor; pending removals
            // and collected input keys lie below it
            lemma_insert_all_props(Seq::empty(), ids);
            lemma_insert_all_props(Seq::empty(), pre.removed_players);
            assert forall|p: u64|
                update@.new_players.contains(p) implies !update@.removed_players.contains(
                p,
            ) by {
                assert(ids.contains(p));
                let k = choose|k: int| 0 <= k < ids.len() && ids[k] == p;
                assert(p == floor0 + k);
                if update@.removed_players.contains(p) {
                    assert(pre.removed_players.contains(p));
                    let m = choose|m: int|
                        0 <= m < pre.removed_players.len() && pre.removed_players[m] == p;
                    assert(pre.removed_players[m] < floor0);
                }
            }
            assert forall|p: u64, k: int|
                #![trigger update@.new_players.contains(p), update@.player_inputs[k]]
                update@.new_players.contains(p) && 0 <= k < update@.player_inputs.len()
                implies update@.player_inputs[k].0 != p by {
                assert(ids.contains(p));
                let m = choose|m: int| 0 <= m < ids.len() && ids[m] == p;
                assert(p == floor0 + m);
                let e = update@.player_inputs[k];
                assert(tick_entry_from(pre.clients, e));
                let i = choose|i: int|
                    0 <= i < pre.clients.len() && ((#[trigger] pre.clients[i]).1
                        matches ClientView::InGame { player_id, queue } && e.0 == player_id
                        && entries_contain(queue.entries, e.1));
                assert(pid_below(pre.clients[i].1, floor0));
            }
        }
        update
    }

    /// The current world, rendered as a byte blob for the wire: exactly the
    /// world's named bytes.
    pub fn serialize_world(&mut self) -> (r: Vec<u8>)
        requires
            old(self).wf(),
        ensures
            final(self).wf(),
            final(self)@ == old(self)@,
            final(self).world_spec() == old(self).world_spec(),
            r@ == old(self).game_spec().world_blob(&old(self).world_spec()),
    {
        proof {
            reveal(Server::wf);
        }
        let bytes = self.game.serialize_world(&self.world);
        proof {
            lemma_wf_monotone_game(*old(self), *self);
        }
        bytes
    }

    /// Renders a tick's update for the wire, consuming it: each collected
    /// input is serialized under its player's id and then released.
    #[verifier::rlimit(30)]
    pub fn render_update(&mut self, update: FrameUpdate<G>) -> (r: crate::protocol::Update)
        requires
            old(self).wf(),
            update_wf(update@),
            tick_inputs_ok(
                old(self).game_spec(),
                old(self)@.clients,
                update@.player_inputs,
                Seq::empty(),
            ),
        ensures
            final(self).wf(),
            final(self)@ == old(self)@,
            final(self).world_spec() == old(self).world_spec(),
            r.new_players@ == update@.new_players,
            r.removed_players@ == update@.removed_players,
            r.inputs@.len() == update@.player_inputs.len(),
            forall|k: int|
                0 <= k < update@.player_inputs.len() ==> (#[trigger] r.inputs@[k]).0
                    == update@.player_inputs[k].0 && r.inputs@[k].1@ == old(
                    self,
                ).game_spec().input_blob(&update@.player_inputs[k].1),
    {
        proof {
            reveal(Server::wf);
        }
        let (new_players, removed_players, player_inputs) = update.into_parts();
        let ghost all = player_inputs@;
        let mut player_inputs = player_inputs;
        let mut inputs: Vec<(u64, Vec<u8>)> = Vec::new();
        #[verifier::loop_isolation(false)]
        loop
            invariant
                player_inputs@ == all.take(player_inputs@.len() as int),
                player_inputs@.len() <= all.len(),
                inputs@.len() == all.len() - player_inputs@.len(),
                forall|k: int|
                    0 <= k < inputs@.len() ==> (#[trigger] inputs@[k]).0 == all[player_inputs@.len()
                        + k].0 && inputs@[k].1@ == old(self).game.input_blob(
                        &all[player_inputs@.len() + k].1,
                    ),
                self.game.accepts_world(&self.world),
                forall|k: int|
                    0 <= k < player_inputs@.len() ==> self.game.accepts_input(&(#[trigger] all[k]).1)
                        && self.game.input_blob(&all[k].1) == old(self).game.input_blob(
                        &all[k].1,
                    ),
                forall|a: int, q: int|
                    0 <= a < self@.clients.len() && 0 <= q < queue_of(self@.clients[a].1).len()
                        ==> self.game.accepts_input(
                        &(#[trigger] queue_of(self@.clients[a].1)[q]).1,
                    ),
                self@ == old(self)@,
                self.world == old(self).world,
                self.game.id_floor() == old(self).game.id_floor(),
            decreases player_inputs@.len(),
        {
            proof {
                assert(all.take(all.len() as int) =~= all);
            }
            match player_inputs.pop() {
                None => {
                    proof {
                        assert forall|k: int| 0 <= k < self@.removed_players.len() implies (
                        #[trigger] self@.removed_players[k]) < self.game.id_floor() by {
                            assert(old(self)@.removed_players[k] < old(self).game.id_floor());
                        }
                        assert forall|i: int| 0 <= i < self@.clients.len() implies pid_below(
                            (#[trigger] self@.clients[i]).1,
                            self.game.id_floor(),
                        ) by {
                            assert(pid_below(old(self)@.clients[i].1, old(self).game.id_floor()));
                        }
                    }
                    return crate::protocol::Update { new_players, removed_players, inputs };
                },
                Some((pid, input)) => {
                    let ghost len1 = player_inputs@.len() as int;
                    proof {
                        assert((pid, input) == all.take(len1 + 1)[len1]);
                        assert((pid, input) == all[len1]);
                        assert(all.take(len1 + 1).drop_last() =~= all.take(len1));
                    }
                    let bytes = self.game.serialize_input(&input);
                    inputs.insert(0, (pid, bytes));
                    proof {
                        assert forall|k: int|
                            0 <= k < len1 implies all[k].1 != input by {
                            assert(all[k].1 != all[len1].1);
                        }
                    }
                    self.game.dispose_input(input);
                },
            }
        }
    }

    /// A client disconnected (or was terminated). Idempotent: unknown ids
    /// are ignored. A client that was in-game leaves its player queued for
    /// removal in the next tick; its pending inputs are released.
    pub fn client_disconnected(&mut self, client: ClientId)
        requires
            old(self).wf(),
        ensures
            final(self).wf(),
            final(self)@.frame == old(self)@.frame,
            final(self)@.next_client_id == old(self)@.next_client_id,
            final(self).world_spec() == old(self).world_spec(),
            has_client(old(self)@, client@) ==> {
                let i = client_index(old(self)@, client@);
                &&& final(self)@.clients == old(self)@.clients.remove(i)
                &&& !has_client(final(self)@, client@)
                &&& final(self)@.removed_players == (match old(self)@.clients[i].1 {
                    ClientView::InGame { player_id, .. } => old(self)@.removed_players.push(
                        player_id,
                    ),
                    _ => old(self)@.removed_players,
                })
            },
            !has_client(old(self)@, client@) ==> final(self)@ == old(self)@ && final(self).game_spec() == old(self).game_spec(),
    {
        let idx = match self.find_client(client) {
            Some(i) => i,
            None => {
                return ;
            },
        };
        proof {
            reveal(Server::wf);
            lemma_client_index_is(old(self)@, idx as int);
        }
        let (_, state) = self.clients.remove(idx);
        let ghost removed_view = old(self)@.clients[idx as int].1;
        proof {
            assert(self@.clients =~= old(self)@.clients.remove(idx as int));
            assert(client_view(state) == removed_view);
        }
        match state {
            ClientState::Connected => {
                proof {
                    reveal(Server::wf);
                    lemma_wf_after_drop_client(*old(self), *self, idx as int);
                }
            },
            ClientState::WaitingForJoin(w) => {
                proof {
                    reveal(Server::wf);
                    assert(queue_of(removed_view) == w.inputs@.entries);
                    lemma_queue_facts_for(*old(self), idx as int);
                }
                release_inputs(&mut self.game, w.inputs);
                proof {
                    reveal(Server::wf);
                    lemma_wf_after_drop_client(*old(self), *self, idx as int);
                }
            },
            ClientState::InGame(g) => {
                proof {
                    reveal(Server::wf);
                    assert(queue_of(removed_view) == g.inputs@.entries);
                    lemma_queue_facts_for(*old(self), idx as int);
                }
                release_inputs(&mut self.game, g.inputs);
                self.removed_players.push(g.player_id);
                proof {
                    reveal(Server::wf);
                    assert(pid_below(old(self)@.clients[idx as int].1, old(self).game.id_floor()));
                    assert forall|k: int| 0 <= k < self@.removed_players.len() implies (
                    #[trigger] self@.removed_players[k]) < self.game.id_floor() by {
                        if k < old(self)@.removed_players.len() {
                            assert(self@.removed_players[k] == old(self)@.removed_players[k]);
                        } else {
                            assert(self@.removed_players[k] == g.player_id);
                        }
                    }
                    lemma_wf_after_drop_client(*old(self), *self, idx as int);
                }
            },
        }
    }
}

/// A waiting client whose join frame is `frame`.
pub open spec fn is_join<I>(c: ClientView<I>, frame: u64) -> bool {
    c matches ClientView::Waiting { join_frame, .. } && join_frame == frame
}

/// How many clients among the first `i` join at `frame`.
pub open spec fn joins_before<I>(cs: Seq<(u64, ClientView<I>)>, frame: u64, i: int) -> int
    decreases i,
{
    if i <= 0 {
        0
    } else {
        joins_before(cs, frame, i - 1) + if is_join(cs[i - 1].1, frame) {
            1int
        } else {
            0int
        }
    }
}

/// One client's transition across the tick that crosses `frame`: a client
/// waiting for `frame` enters the game under the `rank`-th allocated id
/// with its queue intact; an in-game client loses its stale entries and the
/// one tagged `frame`, if present; everything else is untouched.
pub open spec fn client_step<I>(
    pre: ClientView<I>,
    post: ClientView<I>,
    frame: u64,
    ids: Seq<u64>,
    rank: int,
) -> bool {
    match pre {
        ClientView::Connected => post == pre,
        ClientView::Waiting { join_frame, queue } => if join_frame == frame {
            &&& 0 <= rank < ids.len()
            &&& post == ClientView::InGame { player_id: ids[rank], queue }
        } else {
            post == pre
        },
        ClientView::InGame { player_id, queue } => {
            let first = queue.next - queue.entries.len();
            if first <= frame < queue.next {
                post == ClientView::InGame {
                    player_id,
                    queue: QueueView {
                        next: queue.next,
                        entries: queue.entries.skip(frame - first + 1),
                    },
                }
            } else if frame >= queue.next {
                post == ClientView::InGame {
                    player_id,
                    queue: QueueView { next: queue.next, entries: Seq::<(u64, I)>::empty() },
                }
            } else {
                post == pre
            }
        },
    }
}

/// The inputs one tick at `frame` collects from the in-game clients, keyed
/// and ordered by player id.
pub open spec fn tick_inputs<I>(cs: Seq<(u64, ClientView<I>)>, frame: u64) -> Seq<(u64, I)>
    decreases cs.len(),
{
    if cs.len() == 0 {
        Seq::empty()
    } else {
        let rest = tick_inputs(cs.drop_last(), frame);
        match cs.last().1 {
            ClientView::InGame { player_id, queue } => {
                let first = queue.next - queue.entries.len();
                if first <= frame < queue.next {
                    insert_keyed(rest, player_id, queue.entries[frame - first].1)
                } else {
                    rest
                }
            },
            _ => rest,
        }
    }
}

/// How one tick relates the pre-state, the post-state, the emitted update,
/// and the player ids the game allocated (listed in client-table order).
/// Everything the tick emits and leaves behind is a function of the
/// pre-state and `ids` alone.
pub open spec fn tick_rel<I>(
    pre: ServerView<I>,
    post: ServerView<I>,
    upd: FrameUpdateView<I>,
    ids: Seq<u64>,
) -> bool {
    &&& pre.frame < u64::MAX
    &&& post.frame == pre.frame + 1
    &&& post.next_client_id == pre.next_client_id
    &&& post.removed_players == Seq::<u64>::empty()
    &&& upd.removed_players == insert_all(Seq::empty(), pre.removed_players)
    &&& upd.new_players == insert_all(Seq::empty(), ids)
    &&& ids.len() == joins_before(pre.clients, pre.frame, pre.clients.len() as int)
    &&& upd.player_inputs == tick_inputs(pre.clients, pre.frame)
    &&& post.clients.len() == pre.clients.len()
    &&& forall|i: int|
        0 <= i < pre.clients.len() ==> (#[trigger] post.clients[i]).0 == pre.clients[i].0
    &&& forall|i: int|
        0 <= i < pre.clients.len() ==> client_step(
            pre.clients[i].1,
            (#[trigger] post.clients[i]).1,
            pre.frame,
            ids,
            joins_before(pre.clients, pre.frame, i),
        )
}

/// The entry was collected off one of the in-game clients: its key is that
/// client's player id and its value sits in that client's queue.
pub open spec fn tick_entry_from<I>(cs: Seq<(u64, ClientView<I>)>, e: (u64, I)) -> bool {
    exists|i: int|
        0 <= i < cs.len() && ((#[trigger] cs[i]).1 matches ClientView::InGame {
            player_id,
            queue,
        } && e.0 == player_id && entries_contain(queue.entries, e.1))
}

/// Every entry the tick collects comes from an in-game client's queue.
pub proof fn lemma_tick_inputs_entries<I>(cs: Seq<(u64, ClientView<I>)>, frame: u64)
    ensures
        sorted_keys(tick_inputs(cs, frame)),
        forall|k: int|
            0 <= k < tick_inputs(cs, frame).len() ==> tick_entry_from(
                cs,
                #[trigger] tick_inputs(cs, frame)[k],
            ),
    decreases cs.len(),
{
    let t = tick_inputs(cs, frame);
    if cs.len() == 0 {
    } else {
        let rest = cs.drop_last();
        lemma_tick_inputs_entries(rest, frame);
        let tr = tick_inputs(rest, frame);
        assert(forall|i: int| 0 <= i < rest.len() ==> #[trigger] rest[i] == cs[i]);
        assert forall|e: (u64, I)| tick_entry_from(rest, e) implies tick_entry_from(cs, e) by {
            let i = choose|i: int|
                0 <= i < rest.len() && ((#[trigger] rest[i]).1 matches ClientView::InGame {
                    player_id,
                    queue,
                } && e.0 == player_id && entries_contain(queue.entries, e.1));
            assert(cs[i] == rest[i]);
        }
        match cs.last().1 {
            ClientView::InGame { player_id, queue } => {
                let first = queue.next - queue.entries.len();
                if first <= frame < queue.next {
                    let v = queue.entries[frame - first].1;
                    lemma_insert_keyed_props(tr, player_id, v);
                    assert(entries_contain(queue.entries, v));
                    assert(tick_entry_from(cs, (player_id, v))) by {
                        assert(cs[cs.len() - 1] == cs.last());
                    }
                    assert forall|k: int| 0 <= k < t.len() implies tick_entry_from(
                        cs,
                        #[trigger] t[k],
                    ) by {
                        assert(t.contains(t[k]));
                        if t[k] == (player_id, v) {
                        } else {
                            assert(tr.contains(t[k]));
                            let m = choose|m: int| 0 <= m < tr.len() && tr[m] == t[k];
                            assert(tick_entry_from(rest, tr[m]));
                        }
                    }
                } else {
                    assert(t == tr);
                }
            },
            _ => {
                assert(t == tr);
            },
        }
    }
}

/// Every input value the tick still owns — queued by a client, collected
/// into the update, or awaiting release — is accepted by the game, and no
/// value sits in two places.
pub open spec fn tick_inputs_ok<G: Game>(
    g: G,
    cs: Seq<(u64, ClientView<G::Input>)>,
    upd: Seq<(u64, G::Input)>,
    grave: Seq<G::Input>,
) -> bool {
    &&& forall|i: int, k: int|
        0 <= i < cs.len() && 0 <= k < queue_of(cs[i].1).len() ==> g.accepts_input(
            &(#[trigger] queue_of(cs[i].1)[k]).1,
        )
    &&& forall|k: int| 0 <= k < upd.len() ==> g.accepts_input(&(#[trigger] upd[k]).1)
    &&& forall|k: int| 0 <= k < grave.len() ==> g.accepts_input(&(#[trigger] grave[k]))
    &&& forall|i: int, k: int, j: int, l: int|
        #![trigger queue_of(cs[i].1)[k], queue_of(cs[j].1)[l]]
        0 <= i < cs.len() && 0 <= k < queue_of(cs[i].1).len() && 0 <= j < cs.len() && 0 <= l
            < queue_of(cs[j].1).len() && (i != j || k != l) ==> queue_of(cs[i].1)[k].1 != queue_of(
            cs[j].1,
        )[l].1
    &&& forall|k: int, l: int|
        0 <= k < l < upd.len() ==> (#[trigger] upd[k]).1 != (#[trigger] upd[l]).1
    &&& forall|k: int, l: int| 0 <= k < l < grave.len() ==> (#[trigger] grave[k]) != (
    #[trigger] grave[l])
    &&& forall|k: int, i: int, l: int|
        #![trigger upd[k], queue_of(cs[i].1)[l]]
        0 <= k < upd.len() && 0 <= i < cs.len() && 0 <= l < queue_of(cs[i].1).len()
            ==> upd[k].1 != queue_of(cs[i].1)[l].1
    &&& forall|k: int, i: int, l: int|
        #![trigger grave[k], queue_of(cs[i].1)[l]]
        0 <= k < grave.len() && 0 <= i < cs.len() && 0 <= l < queue_of(cs[i].1).len()
            ==> grave[k] != queue_of(cs[i].1)[l].1
    &&& forall|k: int, l: int|
        #![trigger grave[k], upd[l]]
        0 <= k < grave.len() && 0 <= l < upd.len() ==> grave[k] != upd[l].1
}

/// In a table with strictly increasing ids, position `i` is the index its
/// own id resolves to.
proof fn lemma_client_index_is<I>(v: ServerView<I>, i: int)
    requires
        forall|p: int, q: int|
            0 <= p < q < v.clients.len() ==> (#[trigger] v.clients[p]).0 < (
            #[trigger] v.clients[q]).0,
        0 <= i < v.clients.len(),
    ensures
        has_client(v, v.clients[i].0),
        client_index(v, v.clients[i].0) == i,
{
    let id = v.clients[i].0;
    assert(has_client(v, id));
    let j = client_index(v, id);
    assert(0 <= j < v.clients.len() && v.clients[j].0 == id);
    if j < i {
        assert(v.clients[j].0 < v.clients[i].0);
    }
    if j > i {
        assert(v.clients[i].0 < v.clients[j].0);
    }
}

/// The current world handle is always valid: a well-formed server's game
/// stands behind the world the server holds. (That every superseded world
/// was released exactly once is the contract of `Game::dispose_world`:
/// release demands a world the game still stands behind, and leaves it no
/// longer stood behind.)
pub proof fn lemma_current_world_valid<G: Game>(s: Server<G>)
    requires
        s.wf(),
    ensures
        s.game_spec().accepts_world(&s.world_spec()),
{
    reveal(Server::wf);
}

/// A server stays well-formed when only its game moves, as long as the move
/// keeps every accepted world and input accepted.
proof fn lemma_wf_monotone_game<G: Game>(s0: Server<G>, s1: Server<G>)
    requires
        s0.wf(),
        s1@ == s0@,
        s1.world_spec() == s0.world_spec(),
        s1.game_spec().id_floor() == s0.game_spec().id_floor(),
        forall|v: G::Input|
            #![trigger s0.game_spec().accepts_input(&v)]
            #![trigger s1.game_spec().accepts_input(&v)]
            s0.game_spec().accepts_input(&v) ==> s1.game_spec().accepts_input(&v),
        forall|w: G::World|
            #![trigger s0.game_spec().accepts_world(&w)]
            #![trigger s1.game_spec().accepts_world(&w)]
            s0.game_spec().accepts_world(&w) ==> s1.game_spec().accepts_world(&w),
    ensures
        s1.wf(),
{
    reveal(Server::wf);
    assert(s0.game_spec().accepts_world(&s0.world_spec()));
    assert(s1.game_spec().accepts_world(&s1.world_spec()));
    assert forall|i: int, k: int|
        0 <= i < s1@.clients.len() && 0 <= k < queue_of(s1@.clients[i].1).len()
        implies s1.game_spec().accepts_input(&(#[trigger] queue_of(s1@.clients[i].1)[k]).1) by {
        assert(s0.game_spec().accepts_input(&queue_of(s0@.clients[i].1)[k].1));
    }
    assert forall|i: int| 0 <= i < s1@.clients.len() implies pid_below(
        (#[trigger] s1@.clients[i]).1,
        s1.game_spec().id_floor(),
    ) by {
        assert(pid_below(s0@.clients[i].1, s0.game_spec().id_floor()));
    }
}

/// A server stays well-formed when one joined client accepts one input for
/// the frame its cursor expects, provided the input is fresh: accepted by
/// the game now, not accepted before.
proof fn lemma_wf_after_accept<G: Game>(
    pre: Server<G>,
    post: Server<G>,
    idx: int,
    frame: u64,
    inp: G::Input,
)
    requires
        pre.wf(),
        0 <= idx < pre@.clients.len(),
        post.world_spec() == pre.world_spec(),
        post@.frame == pre@.frame,
        post@.next_client_id == pre@.next_client_id,
        forall|v: G::Input|
            #![trigger pre.game_spec().accepts_input(&v)]
            #![trigger post.game_spec().accepts_input(&v)]
            pre.game_spec().accepts_input(&v) ==> post.game_spec().accepts_input(&v),
        forall|w: G::World|
            #![trigger pre.game_spec().accepts_world(&w)]
            #![trigger post.game_spec().accepts_world(&w)]
            pre.game_spec().accepts_world(&w) ==> post.game_spec().accepts_world(&w),
        post.game_spec().accepts_input(&inp),
        !pre.game_spec().accepts_input(&inp),
        post.game_spec().id_floor() == pre.game_spec().id_floor(),
        post@.removed_players == pre@.removed_players,
        ({
            let id = pre@.clients[idx].0;
            match pre@.clients[idx].1 {
                ClientView::Connected => false,
                ClientView::Waiting { join_frame, queue } => frame == queue.next && frame
                    < u64::MAX && post@.clients == pre@.clients.update(
                    idx,
                    (
                        id,
                        ClientView::Waiting {
                            join_frame,
                            queue: QueueView {
                                next: (frame + 1) as u64,
                                entries: queue.entries.push((frame, inp)),
                            },
                        },
                    ),
                ),
                ClientView::InGame { player_id, queue } => frame == queue.next && frame < u64::MAX
                    && post@.clients == pre@.clients.update(
                    idx,
                    (
                        id,
                        ClientView::InGame {
                            player_id,
                            queue: QueueView {
                                next: (frame + 1) as u64,
                                entries: queue.entries.push((frame, inp)),
                            },
                        },
                    ),
                ),
            }
        }),
    ensures
        post.wf(),
{
    reveal(Server::wf);
    let cs = post@.clients;
    assert(pre.game_spec().accepts_world(&pre.world_spec()));
    assert(post.game_spec().accepts_world(&post.world_spec()));
    let q0 = match pre@.clients[idx].1 {
        ClientView::Connected => arbitrary::<QueueView<G::Input>>(),
        ClientView::Waiting { queue, .. } => queue,
        ClientView::InGame { queue, .. } => queue,
    };
    let q1 = match cs[idx].1 {
        ClientView::Connected => arbitrary::<QueueView<G::Input>>(),
        ClientView::Waiting { queue, .. } => queue,
        ClientView::InGame { queue, .. } => queue,
    };
    assert(q1.entries == q0.entries.push((frame, inp)));
    assert(queue_wf(q1)) by {
        assert forall|m: int| 0 <= m < q1.entries.len() implies (#[trigger] q1.entries[m]).0
            as int == q1.next - q1.entries.len() + m by {
            if m < q0.entries.len() {
                assert(q1.entries[m] == q0.entries[m]);
            } else {
                assert(q1.entries[m] == (frame, inp));
            }
        }
    }
    assert(client_ok(pre@.frame, pre@.clients[idx].1));
    assert(client_ok(post@.frame, cs[idx].1)) by {
        match pre@.clients[idx].1 {
            ClientView::Connected => {
                assert(false);
            },
            ClientView::Waiting { join_frame, queue } => {
                assert(q0 == queue);
                assert(q1.next as int == join_frame + 1 + q1.entries.len());
            },
            ClientView::InGame { player_id, queue } => {
                assert(q0 == queue);
            },
        }
    }
    assert forall|i: int| 0 <= i < cs.len() implies client_ok(post@.frame, (
    #[trigger] cs[i]).1) && cs[i].0 < post@.next_client_id && pid_below(
        cs[i].1,
        post.game_spec().id_floor(),
    ) by {
        if i != idx {
            assert(cs[i] == pre@.clients[i]);
            assert(pid_below(pre@.clients[i].1, pre.game_spec().id_floor()));
        } else {
            assert(pid_below(pre@.clients[idx].1, pre.game_spec().id_floor()));
        }
    }
    assert(count_connected(cs) == count_connected(pre@.clients) && count_waiting(cs)
        == count_waiting(pre@.clients)) by {
        match pre@.clients[idx].1 {
            ClientView::Connected => {},
            ClientView::Waiting { .. } => {
                lemma_counts_update(pre@.clients, idx, cs[idx]);
            },
            ClientView::InGame { .. } => {
                lemma_counts_update(pre@.clients, idx, cs[idx]);
            },
        }
    }
    assert forall|i: int, j: int| 0 <= i < j < cs.len() implies (#[trigger] cs[i]).0 < (
    #[trigger] cs[j]).0 by {
        assert(i != idx ==> cs[i] == pre@.clients[i]);
        assert(j != idx ==> cs[j] == pre@.clients[j]);
        assert(pre@.clients[i].0 < pre@.clients[j].0);
    }
    assert forall|i: int, k: int|
        0 <= i < cs.len() && 0 <= k < queue_of(cs[i].1).len()
        implies post.game_spec().accepts_input(&(#[trigger] queue_of(cs[i].1)[k]).1) by {
        if i == idx {
            if k < q0.entries.len() {
                assert(queue_of(cs[i].1)[k] == queue_of(pre@.clients[i].1)[k]);
                assert(pre.game_spec().accepts_input(&queue_of(pre@.clients[i].1)[k].1));
            } else {
                assert(queue_of(cs[i].1)[k] == (frame, inp));
            }
        } else {
            assert(cs[i] == pre@.clients[i]);
            assert(pre.game_spec().accepts_input(&queue_of(pre@.clients[i].1)[k].1));
        }
    }
    assert forall|i: int, k: int, j: int, l: int|
        #![trigger queue_of(cs[i].1)[k], queue_of(cs[j].1)[l]]
        0 <= i < cs.len() && 0 <= k < queue_of(cs[i].1).len() && 0 <= j < cs.len() && 0 <= l
            < queue_of(cs[j].1).len() && (i != j || k != l) implies queue_of(cs[i].1)[k].1
        != queue_of(cs[j].1)[l].1 by {
        let iv = queue_of(cs[i].1)[k];
        let jv = queue_of(cs[j].1)[l];
        let i_new = i == idx && k == q0.entries.len();
        let j_new = j == idx && l == q0.entries.len();
        if i_new && !j_new {
            assert(iv == (frame, inp));
            assert(queue_of(cs[j].1)[l] == queue_of(pre@.clients[j].1)[l]);
            assert(pre.game_spec().accepts_input(&queue_of(pre@.clients[j].1)[l].1));
        } else if !i_new && j_new {
            assert(jv == (frame, inp));
            assert(queue_of(cs[i].1)[k] == queue_of(pre@.clients[i].1)[k]);
            assert(pre.game_spec().accepts_input(&queue_of(pre@.clients[i].1)[k].1));
        } else if !i_new && !j_new {
            assert(queue_of(cs[i].1)[k] == queue_of(pre@.clients[i].1)[k]);
            assert(queue_of(cs[j].1)[l] == queue_of(pre@.clients[j].1)[l]);
            assert(queue_of(pre@.clients[i].1)[k].1 != queue_of(pre@.clients[j].1)[l].1);
        }
    }
}

/// The inputs queued by client `idx` of a well-formed server are accepted
/// by its game and pairwise distinct, as [`release_inputs`] requires.
proof fn lemma_queue_facts_for<G: Game>(s: Server<G>, idx: int)
    requires
        s.wf(),
        0 <= idx < s@.clients.len(),
    ensures
        forall|k: int|
            0 <= k < queue_of(s@.clients[idx].1).len() ==> s.game_spec().accepts_input(
                &(#[trigger] queue_of(s@.clients[idx].1)[k]).1,
            ),
        forall|k: int, l: int|
            0 <= k < l < queue_of(s@.clients[idx].1).len() ==> (#[trigger] queue_of(
                s@.clients[idx].1,
            )[k]).1 != (#[trigger] queue_of(s@.clients[idx].1)[l]).1,
{
    reveal(Server::wf);
}

/// Removing one client (and releasing exactly its queued inputs) keeps the
/// server well-formed.
proof fn lemma_wf_after_drop_client<G: Game>(s0: Server<G>, s1: Server<G>, idx: int)
    requires
        s0.wf(),
        0 <= idx < s0@.clients.len(),
        s1@.clients == s0@.clients.remove(idx),
        s1@.frame == s0@.frame,
        s1@.next_client_id == s0@.next_client_id,
        s1.world_spec() == s0.world_spec(),
        s1.game_spec().id_floor() == s0.game_spec().id_floor(),
        forall|k: int|
            0 <= k < s1@.removed_players.len() ==> (#[trigger] s1@.removed_players[k])
                < s1.game_spec().id_floor(),
        forall|v: G::Input|
            #![trigger s0.game_spec().accepts_input(&v)]
            #![trigger s1.game_spec().accepts_input(&v)]
            s0.game_spec().accepts_input(&v) && !entries_contain(
                queue_of(s0@.clients[idx].1),
                v,
            ) ==> s1.game_spec().accepts_input(&v),
        forall|w: G::World|
            #![trigger s0.game_spec().accepts_world(&w)]
            #![trigger s1.game_spec().accepts_world(&w)]
            s0.game_spec().accepts_world(&w) ==> s1.game_spec().accepts_world(&w),
    ensures
        s1.wf(),
{
    reveal(Server::wf);
    lemma_removed_queue_separate(s0@, idx);
    assert(s0.game_spec().accepts_world(&s0.world_spec()));
    assert(s1.game_spec().accepts_world(&s1.world_spec()));
    let rest = s1@.clients;
    assert forall|a: int| 0 <= a < rest.len() implies rest[a] == s0@.clients[
        if a < idx {
            a
        } else {
            a + 1
        }
    ] by {}
    assert forall|a: int, k: int|
        0 <= a < rest.len() && 0 <= k < queue_of(rest[a].1).len()
        implies s1.game_spec().accepts_input(&(#[trigger] queue_of(rest[a].1)[k]).1) by {
        let oa = if a < idx {
            a
        } else {
            a + 1
        };
        assert(rest[a] == s0@.clients[oa]);
        assert(s0.game_spec().accepts_input(&queue_of(s0@.clients[oa].1)[k].1));
        assert(!entries_contain(queue_of(s0@.clients[idx].1), queue_of(rest[a].1)[k].1));
    }
    assert forall|a: int, k: int, b: int, l: int|
        #![trigger queue_of(rest[a].1)[k], queue_of(rest[b].1)[l]]
        0 <= a < rest.len() && 0 <= k < queue_of(rest[a].1).len() && 0 <= b < rest.len() && 0 <= l
            < queue_of(rest[b].1).len() && (a != b || k != l) implies queue_of(rest[a].1)[k].1
        != queue_of(rest[b].1)[l].1 by {
        let oa = if a < idx {
            a
        } else {
            a + 1
        };
        let ob = if b < idx {
            b
        } else {
            b + 1
        };
        assert(rest[a] == s0@.clients[oa] && rest[b] == s0@.clients[ob]);
        assert(queue_of(s0@.clients[oa].1)[k].1 != queue_of(s0@.clients[ob].1)[l].1);
    }
    assert forall|a: int, b: int| 0 <= a < b < rest.len() implies (#[trigger] rest[a]).0 < (
    #[trigger] rest[b]).0 by {
        let oa = if a < idx {
            a
        } else {
            a + 1
        };
        let ob = if b < idx {
            b
        } else {
            b + 1
        };
        assert(rest[a] == s0@.clients[oa] && rest[b] == s0@.clients[ob]);
        assert(s0@.clients[oa].0 < s0@.clients[ob].0);
    }
    assert forall|a: int| 0 <= a < rest.len() implies (#[trigger] rest[a]).0
        < s1@.next_client_id && client_ok(s1@.frame, rest[a].1) && pid_below(
        rest[a].1,
        s1.game_spec().id_floor(),
    ) by {
        let oa = if a < idx {
            a
        } else {
            a + 1
        };
        assert(rest[a] == s0@.clients[oa]);
        assert(pid_below(s0@.clients[oa].1, s0.game_spec().id_floor()));
    }
    lemma_counts_remove(s0@.clients, idx);
    assert(kind_connected(s0@.clients[idx].1) >= 0 && kind_waiting(s0@.clients[idx].1) >= 0);
}

/// After removing client `i` from a well-formed table, the inputs still
/// queued by the remaining clients are disjoint from those of client `i`.
proof fn lemma_removed_queue_separate<I>(v: ServerView<I>, i: int)
    requires
        0 <= i < v.clients.len(),
        forall|a: int, k: int, b: int, l: int|
            #![trigger queue_of(v.clients[a].1)[k], queue_of(v.clients[b].1)[l]]
            0 <= a < v.clients.len() && 0 <= k < queue_of(v.clients[a].1).len() && 0 <= b
                < v.clients.len() && 0 <= l < queue_of(v.clients[b].1).len() && (a != b || k != l)
                ==> queue_of(v.clients[a].1)[k].1 != queue_of(v.clients[b].1)[l].1,
    ensures
        forall|a: int, k: int|
            0 <= a < v.clients.remove(i).len() && 0 <= k < queue_of(
                v.clients.remove(i)[a].1,
            ).len() ==> !entries_contain(
                queue_of(v.clients[i].1),
                (#[trigger] queue_of(v.clients.remove(i)[a].1)[k]).1,
            ),
{
    let rest = v.clients.remove(i);
    assert forall|a: int, k: int|
        0 <= a < rest.len() && 0 <= k < queue_of(rest[a].1).len() implies !entries_contain(
        queue_of(v.clients[i].1),
        (#[trigger] queue_of(rest[a].1)[k]).1,
    ) by {
        let orig_a = if a < i {
            a
        } else {
            a + 1
        };
        assert(rest[a] == v.clients[orig_a]);
        if entries_contain(queue_of(v.clients[i].1), queue_of(rest[a].1)[k].1) {
            let l = choose|l: int|
                0 <= l < queue_of(v.clients[i].1).len() && (#[trigger] queue_of(
                    v.clients[i].1,
                )[l]).1 == queue_of(rest[a].1)[k].1;
            assert(queue_of(v.clients[orig_a].1)[k].1 != queue_of(v.clients[i].1)[l].1);
        }
    }
}

/// A (position-free) account of where a value can sit in [`tick_inputs_ok`].
proof fn lemma_entry_positions<I>(s: Seq<(u64, I)>, e: (u64, I))
    requires
        s.contains(e),
    ensures
        exists|k: int| 0 <= k < s.len() && (#[trigger] s[k]) == e,
{
}

/// Moving one in-game client's stale prefix to the graveyard and its
/// current input into the update keeps every owned value accepted and
/// owned exactly once.
#[verifier::rlimit(30)]
proof fn lemma_tick_ok_ingame<G: Game>(
    g: G,
    cs0: Seq<(u64, ClientView<G::Input>)>,
    cs1: Seq<(u64, ClientView<G::Input>)>,
    idx: int,
    frame: u64,
    upd0: Seq<(u64, G::Input)>,
    upd1: Seq<(u64, G::Input)>,
    grave0: Seq<G::Input>,
    grave1: Seq<G::Input>,
    pid: u64,
    q: QueueView<G::Input>,
)
    requires
        tick_inputs_ok(g, cs0, upd0, grave0),
        sorted_keys(upd0),
        queue_wf(q),
        0 <= idx < cs0.len(),
        cs0[idx].1 == (ClientView::InGame { player_id: pid, queue: q }),
        ({
            let first = q.next - q.entries.len();
            if first <= frame < q.next {
                &&& cs1 == cs0.update(
                    idx,
                    (
                        cs0[idx].0,
                        ClientView::InGame {
                            player_id: pid,
                            queue: QueueView {
                                next: q.next,
                                entries: q.entries.skip(frame - first + 1),
                            },
                        },
                    ),
                )
                &&& upd1 == insert_keyed(upd0, pid, q.entries[frame - first].1)
                &&& grave1 == (match keyed_lookup(upd0, pid) {
                    Some(r0) => grave0 + values_of(q.entries.take(frame - first)) + seq![r0],
                    None => grave0 + values_of(q.entries.take(frame - first)),
                })
            } else if frame >= q.next {
                &&& cs1 == cs0.update(
                    idx,
                    (
                        cs0[idx].0,
                        ClientView::InGame {
                            player_id: pid,
                            queue: QueueView { next: q.next, entries: Seq::empty() },
                        },
                    ),
                )
                &&& upd1 == upd0
                &&& grave1 == grave0 + values_of(q.entries)
            } else {
                &&& cs1 == cs0
                &&& upd1 == upd0
                &&& grave1 == grave0
            }
        }),
    ensures
        tick_inputs_ok(g, cs1, upd1, grave1),
{
    let first = q.next - q.entries.len();
    // Where each value of the new configuration came from:
    // - a queue slot of cs1 is a queue slot of cs0 (same client, possibly
    //   shifted by the consumed prefix of client idx);
    // - a graveyard value is a graveyard value of grave0, a value of the
    //   consumed prefix of client idx's queue, or the update entry that the
    //   inserted one replaced;
    // - an update entry is an entry of upd0 under a different key, or the
    //   pair taken from client idx's queue.
    let consumed: int = if first <= frame < q.next {
        frame - first + 1
    } else if frame >= q.next {
        q.entries.len() as int
    } else {
        0
    };
    assert forall|i: int, k: int|
        0 <= i < cs1.len() && 0 <= k < queue_of(cs1[i].1).len() implies queue_of(cs1[i].1)[k]
        == queue_of(cs0[i].1)[if i == idx {
        k + consumed
    } else {
        k
    }] && 0 <= (if i == idx {
        k + consumed
    } else {
        k
    }) < queue_of(cs0[i].1).len() by {
        if i == idx {
            if first <= frame < q.next {
                assert(queue_of(cs1[i].1) == q.entries.skip(frame - first + 1));
            } else if frame >= q.next {
                assert(queue_of(cs1[i].1) == Seq::<(u64, G::Input)>::empty());
            }
        } else {
            assert(cs1[i] == cs0[i]);
        }
    }
    if first <= frame < q.next {
        let v = q.entries[frame - first].1;
        lemma_insert_keyed_props(upd0, pid, v);
        crate::game::lemma_keyed_lookup_is_entry(upd0, pid);
        // every entry of upd1 is (pid, v) or an entry of upd0
        assert forall|k: int| 0 <= k < upd1.len() implies (#[trigger] upd1[k]) == (pid, v)
            || (upd0.contains(upd1[k]) && upd1[k].0 != pid) by {
            assert(upd1.contains(upd1[k]));
        }
        // the replaced entry, if any, is a value of upd0
        match keyed_lookup(upd0, pid) {
            Some(r0) => {
                assert(upd0.contains((pid, r0)));
                lemma_entry_positions(upd0, (pid, r0));
            },
            None => {},
        }
        // acceptance of everything in upd1 and grave1
        assert forall|k: int| 0 <= k < upd1.len() implies g.accepts_input(&(#[trigger] upd1[k]).1)
            by {
            if upd1[k] == (pid, v) {
                assert(queue_of(cs0[idx].1)[frame - first].1 == v);
            } else {
                lemma_entry_positions(upd0, upd1[k]);
            }
        }
        assert forall|k: int| 0 <= k < grave1.len() implies g.accepts_input(
            &(#[trigger] grave1[k]),
        ) by {
            let ndrop = frame - first;
            if k < grave0.len() {
                assert(grave1[k] == grave0[k]);
            } else if k < grave0.len() + ndrop {
                assert(grave1[k] == values_of(q.entries.take(ndrop))[k - grave0.len()]);
                assert(grave1[k] == q.entries[k - grave0.len()].1);
                assert(queue_of(cs0[idx].1)[k - grave0.len()].1 == grave1[k]);
            } else {
                let r0 = keyed_lookup(upd0, pid)->Some_0;
                assert(grave1[k] == r0);
                lemma_entry_positions(upd0, (pid, r0));
            }
        }
    } else if frame >= q.next {
        assert forall|k: int| 0 <= k < grave1.len() implies g.accepts_input(
            &(#[trigger] grave1[k]),
        ) by {
            if k >= grave0.len() {
                assert(grave1[k] == values_of(q.entries)[k - grave0.len()]);
                assert(grave1[k] == q.entries[k - grave0.len()].1);
                assert(queue_of(cs0[idx].1)[k - grave0.len()].1 == grave1[k]);
            }
        }
    }
    lemma_tick_ok_ingame_distinct(g, cs0, cs1, idx, frame, upd0, upd1, grave0, grave1, pid, q);
}

/// The distinctness half of [`lemma_tick_ok_ingame`].
#[verifier::rlimit(50)]
proof fn lemma_tick_ok_ingame_distinct<G: Game>(
    g: G,
    cs0: Seq<(u64, ClientView<G::Input>)>,
    cs1: Seq<(u64, ClientView<G::Input>)>,
    idx: int,
    frame: u64,
    upd0: Seq<(u64, G::Input)>,
    upd1: Seq<(u64, G::Input)>,
    grave0: Seq<G::Input>,
    grave1: Seq<G::Input>,
    pid: u64,
    q: QueueView<G::Input>,
)
    requires
        tick_inputs_ok(g, cs0, upd0, grave0),
        sorted_keys(upd0),
        queue_wf(q),
        0 <= idx < cs0.len(),
        cs0[idx].1 == (ClientView::InGame { player_id: pid, queue: q }),
        ({
            let first = q.next - q.entries.len();
            if first <= frame < q.next {
                &&& cs1 == cs0.update(
                    idx,
                    (
                        cs0[idx].0,
                        ClientView::InGame {
                            player_id: pid,
                            queue: QueueView {
                                next: q.next,
                                entries: q.entries.skip(frame - first + 1),
                            },
                        },
                    ),
                )
                &&& upd1 == insert_keyed(upd0, pid, q.entries[frame - first].1)
                &&& grave1 == (match keyed_lookup(upd0, pid) {
                    Some(r0) => grave0 + values_of(q.entries.take(frame - first)) + seq![r0],
                    None => grave0 + values_of(q.entries.take(frame - first)),
                })
            } else if frame >= q.next {
                &&& cs1 == cs0.update(
                    idx,
                    (
                        cs0[idx].0,
                        ClientView::InGame {
                            player_id: pid,
                            queue: QueueView { next: q.next, entries: Seq::empty() },
                        },
                    ),
                )
                &&& upd1 == upd0
                &&& grave1 == grave0 + values_of(q.entries)
            } else {
                &&& cs1 == cs0
                &&& upd1 == upd0
                &&& grave1 == grave0
            }
        }),
    ensures
        forall|i: int, k: int, j: int, l: int|
            #![trigger queue_of(cs1[i].1)[k], queue_of(cs1[j].1)[l]]
            0 <= i < cs1.len() && 0 <= k < queue_of(cs1[i].1).len() && 0 <= j < cs1.len() && 0 <= l
                < queue_of(cs1[j].1).len() && (i != j || k != l) ==> queue_of(cs1[i].1)[k].1
                != queue_of(cs1[j].1)[l].1,
        forall|k: int, l: int|
            0 <= k < l < upd1.len() ==> (#[trigger] upd1[k]).1 != (#[trigger] upd1[l]).1,
        forall|k: int, l: int| 0 <= k < l < grave1.len() ==> (#[trigger] grave1[k]) != (
        #[trigger] grave1[l]),
        forall|k: int, i: int, l: int|
            #![trigger upd1[k], queue_of(cs1[i].1)[l]]
            0 <= k < upd1.len() && 0 <= i < cs1.len() && 0 <= l < queue_of(cs1[i].1).len()
                ==> upd1[k].1 != queue_of(cs1[i].1)[l].1,
        forall|k: int, i: int, l: int|
            #![trigger grave1[k], queue_of(cs1[i].1)[l]]
            0 <= k < grave1.len() && 0 <= i < cs1.len() && 0 <= l < queue_of(cs1[i].1).len()
                ==> grave1[k] != queue_of(cs1[i].1)[l].1,
        forall|k: int, l: int|
            #![trigger grave1[k], upd1[l]]
            0 <= k < grave1.len() && 0 <= l < upd1.len() ==> grave1[k] != upd1[l].1,
{
    let first = q.next - q.entries.len();
    let consumed: int = if first <= frame < q.next {
        frame - first + 1
    } else if frame >= q.next {
        q.entries.len() as int
    } else {
        0
    };
    // positions of cs1 queues inside cs0 queues
    assert forall|i: int, k: int|
        0 <= i < cs1.len() && 0 <= k < queue_of(cs1[i].1).len() implies queue_of(cs1[i].1)[k]
        == queue_of(cs0[i].1)[if i == idx {
        k + consumed
    } else {
        k
    }] && 0 <= (if i == idx {
        k + consumed
    } else {
        k
    }) < queue_of(cs0[i].1).len() by {
        if i == idx {
            if first <= frame < q.next {
                assert(queue_of(cs1[i].1) == q.entries.skip(frame - first + 1));
            } else if frame >= q.next {
                assert(queue_of(cs1[i].1) == Seq::<(u64, G::Input)>::empty());
            }
        } else {
            assert(cs1[i] == cs0[i]);
        }
    }
    if first <= frame < q.next {
        let v = q.entries[frame - first].1;
        lemma_insert_keyed_props(upd0, pid, v);
        crate::game::lemma_keyed_lookup_is_entry(upd0, pid);
        assert(queue_of(cs0[idx].1)[frame - first].1 == v);
        // a position-level account of upd1
        assert forall|k: int| 0 <= k < upd1.len() implies (#[trigger] upd1[k]) == (pid, v) || (
        exists|m: int|
            0 <= m < upd0.len() && (#[trigger] upd0[m]) == upd1[k] && upd1[k].0 != pid) by {
            assert(upd1.contains(upd1[k]));
            if upd1[k] != (pid, v) {
                lemma_entry_positions(upd0, upd1[k]);
            }
        }
        match keyed_lookup(upd0, pid) {
            Some(r0) => {
                assert(upd0.contains((pid, r0)));
                lemma_entry_positions(upd0, (pid, r0));
                let m0 = choose|m: int| 0 <= m < upd0.len() && (#[trigger] upd0[m]) == (pid, r0);
                // r0 no longer appears in upd1
                assert forall|k: int| 0 <= k < upd1.len() implies (#[trigger] upd1[k]).1 != r0 by {
                    if upd1[k] == (pid, v) {
                        assert(v != r0) by {
                            assert(upd0[m0].1 != queue_of(cs0[idx].1)[frame - first].1);
                        }
                    } else {
                        let m = choose|m: int|
                            0 <= m < upd0.len() && (#[trigger] upd0[m]) == upd1[k] && upd1[k].0
                                != pid;
                        assert(m != m0);
                        assert(upd0[m].1 != upd0[m0].1);
                    }
                }
                // r0 is distinct from every queue value and from grave0
                assert forall|i: int, l: int|
                    0 <= i < cs0.len() && 0 <= l < queue_of(cs0[i].1).len() implies r0 != (
                #[trigger] queue_of(cs0[i].1)[l]).1 by {
                    assert(upd0[m0].1 != queue_of(cs0[i].1)[l].1);
                }
                assert forall|k: int| 0 <= k < grave0.len() implies (#[trigger] grave0[k]) != r0
                    by {
                    assert(grave0[k] != upd0[m0].1);
                }
            },
            None => {},
        }
        // v is distinct from upd0 values, grave0 values, and all other queue slots
        assert forall|m: int| 0 <= m < upd0.len() implies (#[trigger] upd0[m]).1 != v by {
            assert(upd0[m].1 != queue_of(cs0[idx].1)[frame - first].1);
        }
        assert forall|k: int| 0 <= k < grave0.len() implies (#[trigger] grave0[k]) != v by {
            assert(grave0[k] != queue_of(cs0[idx].1)[frame - first].1);
        }
    }
    // graveyard positions map into grave0, the consumed prefix, or r0;
    // handled pointwise below through the generic position maps.
    assert forall|k: int| 0 <= k < grave1.len() implies (#[trigger] grave1[k]) == grave0[k] || (
    exists|m: int| 0 <= m < consumed && grave1[k] == (#[trigger] q.entries[m]).1) || (
    keyed_lookup(upd0, pid) is Some && first <= frame < q.next && grave1[k] == keyed_lookup(
        upd0,
        pid,
    )->Some_0) by {
        if k >= grave0.len() {
            if first <= frame < q.next {
                let ndrop = frame - first;
                if k < grave0.len() + ndrop {
                    assert(grave1[k] == values_of(q.entries.take(ndrop))[k - grave0.len()]);
                    assert(grave1[k] == q.entries[k - grave0.len()].1);
                } else {
                    assert(keyed_lookup(upd0, pid) is Some);
                }
            } else if frame >= q.next {
                assert(grave1[k] == values_of(q.entries)[k - grave0.len()]);
                assert(grave1[k] == q.entries[k - grave0.len()].1);
            }
        }
    }
    assert forall|m: int| 0 <= m < consumed implies (#[trigger] q.entries[m]).1 == queue_of(
        cs0[idx].1,
    )[m].1 && 0 <= m < queue_of(cs0[idx].1).len() by {}
}

/// Releases a vector of loose inputs, one by one.
fn release_loose_inputs<G: Game>(game: &mut G, vals: Vec<G::Input>)
    requires
        forall|k: int| 0 <= k < vals@.len() ==> old(game).accepts_input(&(#[trigger] vals@[k])),
        forall|k: int, l: int| 0 <= k < l < vals@.len() ==> (#[trigger] vals@[k]) != (
        #[trigger] vals@[l]),
    ensures
        forall|v: G::Input|
            #![trigger old(game).accepts_input(&v)]
            #![trigger final(game).accepts_input(&v)]
            old(game).accepts_input(&v) && !vals@.contains(v) ==> final(game).accepts_input(&v)
                && final(game).input_blob(&v) == old(game).input_blob(&v),
        forall|w: G::World|
            #![trigger old(game).accepts_world(&w)]
            #![trigger final(game).accepts_world(&w)]
            old(game).accepts_world(&w) ==> final(game).accepts_world(&w) && final(game).world_blob(&w) == old(game).world_blob(&w),
        final(game).id_floor() == old(game).id_floor(),
{
    let ghost all = vals@;
    let mut vals = vals;
    #[verifier::loop_isolation(false)]
    loop
        invariant
            vals@.len() <= all.len(),
            vals@ == all.take(vals@.len() as int),
            forall|k: int| 0 <= k < vals@.len() ==> game.accepts_input(&(#[trigger] all[k])),
            forall|v: G::Input|
                #![trigger old(game).accepts_input(&v)]
                #![trigger game.accepts_input(&v)]
                old(game).accepts_input(&v) && !all.contains(v) ==> game.accepts_input(&v)
                    && game.input_blob(&v) == old(game).input_blob(&v),
            forall|w: G::World|
                #![trigger old(game).accepts_world(&w)]
                #![trigger game.accepts_world(&w)]
                old(game).accepts_world(&w) ==> game.accepts_world(&w) && game.world_blob(&w)
                    == old(game).world_blob(&w),
            game.id_floor() == old(game).id_floor(),
        decreases vals@.len(),
    {
        proof {
            assert(all.take(all.len() as int) =~= all);
        }
        match vals.pop() {
            None => {
                return ;
            },
            Some(v) => {
                let ghost len1 = vals@.len() as int;
                proof {
                    assert(v == all.take(len1 + 1)[len1]);
                    assert(v == all[len1]);
                    assert(all.take(len1 + 1).drop_last() =~= all.take(len1));
                    assert(game.accepts_input(&all[len1]));
                    assert forall|v2: G::Input|
                        game.accepts_input(&v2) && !all.contains(v2) implies v2 != v by {
                        assert(all[len1] == v);
                    }
                }
                game.dispose_input(v);
                proof {
                    assert forall|k: int| 0 <= k < vals@.len() implies game.accepts_input(
                        &(#[trigger] all[k]),
                    ) by {
                        assert(all[k] != all[len1]);
                    }
                }
            },
        }
    }
}

/// Pops and releases every input still queued, one by one.
fn release_inputs<G: Game>(game: &mut G, q: InputQueue<G>)
    requires
        forall|k: int| 0 <= k < q@.entries.len() ==> old(game).accepts_input(
            &(#[trigger] q@.entries[k]).1,
        ),
        forall|k: int, l: int|
            0 <= k < l < q@.entries.len() ==> (#[trigger] q@.entries[k]).1 != (
            #[trigger] q@.entries[l]).1,
    ensures
        forall|v: G::Input|
            #![trigger old(game).accepts_input(&v)]
            #![trigger final(game).accepts_input(&v)]
            old(game).accepts_input(&v) && !entries_contain(q@.entries, v) ==> final(game).accepts_input(&v) && final(game).input_blob(&v) == old(game).input_blob(&v),
        forall|w: G::World|
            #![trigger old(game).accepts_world(&w)]
            #![trigger final(game).accepts_world(&w)]
            old(game).accepts_world(&w) ==> final(game).accepts_world(&w) && final(game).world_blob(&w) == old(game).world_blob(&w),
        final(game).id_floor() == old(game).id_floor(),
{
    let ghost all = q@.entries;
    let mut q = q;
    #[verifier::loop_isolation(false)]
    loop
        invariant
            q@.entries.len() <= all.len(),
            q@.entries == all.skip(all.len() - q@.entries.len()),
            forall|k: int, l: int|
                0 <= k < l < all.len() ==> (#[trigger] all[k]).1 != (#[trigger] all[l]).1,
            forall|k: int| 0 <= k < q@.entries.len() ==> game.accepts_input(
                &(#[trigger] q@.entries[k]).1,
            ),
            forall|v: G::Input|
                #![trigger old(game).accepts_input(&v)]
                #![trigger game.accepts_input(&v)]
                old(game).accepts_input(&v) && !entries_contain(all, v) ==> game.accepts_input(&v)
                    && game.input_blob(&v) == old(game).input_blob(&v),
            forall|w: G::World|
                #![trigger old(game).accepts_world(&w)]
                #![trigger game.accepts_world(&w)]
                old(game).accepts_world(&w) ==> game.accepts_world(&w) && game.world_blob(&w)
                    == old(game).world_blob(&w),
            game.id_floor() == old(game).id_floor(),
        decreases q@.entries.len(),
    {
        let ghost done = all.len() - q@.entries.len();
        proof {
            if q.inputs@.len() > 0 {
                assert(q@.entries[0] == (q.inputs@[0].frame, q.inputs@[0].input));
                assert(q@.entries[0] == all[done]);
            }
        }
        match q.inputs.pop_front() {
            None => {
                return ;
            },
            Some(head) => {
                proof {
                    assert(q@.entries =~= all.skip(done).drop_first());
                    assert(all.skip(done).drop_first() =~= all.skip(done + 1));
                    assert(head.input == all[done].1);
                    assert forall|k: int| 0 <= k < q@.entries.len() implies (
                    #[trigger] q@.entries[k]).1 != head.input by {
                        assert(q@.entries[k] == all[done + 1 + k]);
                    }
                }
                game.dispose_input(head.input);
            },
        }
    }
}

} // verus!
