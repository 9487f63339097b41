//! Global laws of the lockstep server, stated over the tick relation
//! [`tick_rel`] that [`crate::server::Server::game_tick`] establishes and the
//! invariants its other operations keep. (That no player id is both
//! announced and removed by one tick, nor announced with an input applied,
//! is an unconditional `ensures` of `game_tick` itself: allocated ids start
//! at the game's id floor, and everything already in play lies below it.)

use crate::game::FrameUpdateView;
use crate::ordered::{lemma_insert_all_props, sorted_unique};
use crate::server::{
    client_ok, client_step, is_join, joins_before, queue_of, queue_wf, tick_rel, ClientView,
    QueueView, ServerView,
};
use vstd::prelude::*;

verus! {

/// An in-game client that still has inputs queued after the tick reaching
/// frame N has its next-expected-frame cursor at N + 1 or beyond, and every
/// entry it retains is tagged with frame N or later. (A client that stops
/// sending inputs keeps an older cursor; its queue is then empty.)
pub proof fn lemma_ingame_cursor_ahead<I>(
    s0: ServerView<I>,
    s1: ServerView<I>,
    upd: FrameUpdateView<I>,
    ids: Seq<u64>,
    i: int,
)
    requires
        tick_rel(s0, s1, upd, ids),
        0 <= i < s0.clients.len(),
        client_ok(s0.frame, s0.clients[i].1),
    ensures
        s1.clients[i].1 matches ClientView::InGame { queue, .. } ==> {
            &&& queue_wf(queue)
            &&& forall|k: int| 0 <= k < queue.entries.len() ==> (#[trigger] queue.entries[k]).0
                >= s1.frame
            &&& queue.entries.len() > 0 ==> queue.next >= s1.frame + 1
        },
{
    assert(client_step(
        s0.clients[i].1,
        s1.clients[i].1,
        s0.frame,
        ids,
        joins_before(s0.clients, s0.frame, i),
    ));
    match s0.clients[i].1 {
        ClientView::Connected => {},
        ClientView::Waiting { join_frame, queue } => {
            if join_frame == s0.frame {
                assert forall|k: int| 0 <= k < queue.entries.len() implies (
                #[trigger] queue.entries[k]).0 >= s1.frame by {
                    assert(queue.entries[k].0 as int == queue.next - queue.entries.len() + k);
                }
                if queue.entries.len() > 0 {
                    assert(queue.entries[0].0 >= s1.frame);
                }
            }
        },
        ClientView::InGame { player_id, queue } => {
            let first = queue.next - queue.entries.len();
            if first <= s0.frame < queue.next {
                let kept = queue.entries.skip(s0.frame - first + 1);
                assert forall|k: int| 0 <= k < kept.len() implies (#[trigger] kept[k]).0
                    >= s1.frame by {
                    assert(kept[k] == queue.entries[k + s0.frame - first + 1]);
                }
                assert(queue_wf(QueueView { next: queue.next, entries: kept })) by {
                    assert forall|k: int| 0 <= k < kept.len() implies (#[trigger] kept[k]).0
                        as int == queue.next - kept.len() + k by {
                        assert(kept[k] == queue.entries[k + s0.frame - first + 1]);
                    }
                }
                if kept.len() > 0 {
                    assert(kept[0].0 >= s1.frame);
                }
            }
        },
    }
}

/// Tick determinism: from one state, one allocation of player ids admits
/// exactly one outcome — the update emitted and the state left behind are
/// functions of the pre-state and the allocated ids alone.
pub proof fn lemma_tick_deterministic<I>(
    s0: ServerView<I>,
    s1a: ServerView<I>,
    upda: FrameUpdateView<I>,
    s1b: ServerView<I>,
    updb: FrameUpdateView<I>,
    ids: Seq<u64>,
)
    requires
        tick_rel(s0, s1a, upda, ids),
        tick_rel(s0, s1b, updb, ids),
    ensures
        upda == updb,
        s1a == s1b,
{
    assert(upda =~~= updb);
    assert forall|i: int| 0 <= i < s0.clients.len() implies (#[trigger] s1a.clients[i])
        == s1b.clients[i] by {
        let rank = joins_before(s0.clients, s0.frame, i);
        assert(client_step(s0.clients[i].1, s1a.clients[i].1, s0.frame, ids, rank));
        assert(client_step(s0.clients[i].1, s1b.clients[i].1, s0.frame, ids, rank));
    }
    assert(s1a.clients =~= s1b.clients);
    assert(s1a =~~= s1b);
}

/// Join-to-announce delay: a client whose `join(F)` was accepted enters the
/// game, and its fresh id is announced, on exactly the tick that crosses
/// frame F — not on any earlier tick (its state is then untouched), and
/// never later (a well-formed waiting client's join frame is never in the
/// past).
pub proof fn lemma_join_announce<I>(
    s0: ServerView<I>,
    s1: ServerView<I>,
    upd: FrameUpdateView<I>,
    ids: Seq<u64>,
    i: int,
)
    requires
        tick_rel(s0, s1, upd, ids),
        0 <= i < s0.clients.len(),
        s0.clients[i].1 is Waiting,
    ensures
        is_join(s0.clients[i].1, s0.frame) ==> {
            let rank = joins_before(s0.clients, s0.frame, i);
            &&& 0 <= rank < ids.len()
            &&& s1.clients[i].1 == (ClientView::InGame {
                player_id: ids[rank],
                queue: s0.clients[i].1->Waiting_queue,
            })
            &&& upd.new_players.contains(ids[rank])
        },
        !is_join(s0.clients[i].1, s0.frame) ==> s1.clients[i].1 == s0.clients[i].1,
{
    let rank = joins_before(s0.clients, s0.frame, i);
    assert(client_step(s0.clients[i].1, s1.clients[i].1, s0.frame, ids, rank));
    lemma_insert_all_props(Seq::empty(), ids);
    match s0.clients[i].1 {
        ClientView::Waiting { join_frame, queue } => {
            if join_frame == s0.frame {
                assert(ids.contains(ids[rank]));
            }
        },
        _ => {},
    }
}

/// Removal ordering: a player whose removal was pending when the tick from
/// frame N to N + 1 ran appears in that tick's removed set — at exactly one
/// position, the set being strictly sorted — and in no later tick's removed
/// set, the pending buffer having been drained.
pub proof fn lemma_removal_once<I>(
    s0: ServerView<I>,
    s1: ServerView<I>,
    upd1: FrameUpdateView<I>,
    ids1: Seq<u64>,
    s2: ServerView<I>,
    upd2: FrameUpdateView<I>,
    ids2: Seq<u64>,
    p: u64,
)
    requires
        tick_rel(s0, s1, upd1, ids1),
        tick_rel(s1, s2, upd2, ids2),
        s0.removed_players.contains(p),
    ensures
        upd1.removed_players.contains(p),
        sorted_unique(upd1.removed_players),
        !upd2.removed_players.contains(p),
{
    lemma_insert_all_props(Seq::empty(), s0.removed_players);
    lemma_insert_all_props(Seq::empty(), s1.removed_players);
    assert(s1.removed_players == Seq::<u64>::empty());
    assert(!s1.removed_players.contains(p));
}

/// Input monotonicity, queue side: the frames still queued are consecutive
/// and strictly increasing, ending right before the cursor; for a waiting
/// client the earliest queued frame is `join_frame + 1`, so the first
/// accepted input was for the frame right after the join. (That an input is
/// accepted only for the cursor's exact frame, which then advances by one,
/// is the contract of `Server::client_input`.)
pub proof fn lemma_accepted_inputs_consecutive<I>(frame: u64, c: ClientView<I>)
    requires
        client_ok(frame, c),
        !(c is Connected),
    ensures
        forall|k: int, l: int|
            0 <= k < l < queue_of(c).len() ==> (#[trigger] queue_of(c)[k]).0 < (
            #[trigger] queue_of(c)[l]).0,
        forall|k: int|
            0 <= k < queue_of(c).len() - 1 ==> (#[trigger] queue_of(c)[k]).0 + 1 == queue_of(
                c,
            )[k + 1].0,
        c matches ClientView::Waiting { join_frame, queue } ==> forall|k: int|
            0 <= k < queue.entries.len() ==> (#[trigger] queue.entries[k]).0 == join_frame + 1 + k,
{
    match c {
        ClientView::Connected => {},
        ClientView::Waiting { join_frame, queue } => {
            assert forall|k: int| 0 <= k < queue.entries.len() implies (
            #[trigger] queue.entries[k]).0 == join_frame + 1 + k by {
                assert(queue.entries[k].0 as int == queue.next - queue.entries.len() + k);
            }
        },
        ClientView::InGame { queue, .. } => {},
    }
}

} // verus!
