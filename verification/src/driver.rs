//! The decisions of the serving loop, one call per transport event: what to
//! send a fresh connection, how a client's text changes the server, and what
//! one tick broadcasts. The loop itself — sockets, clocks, sleeping — lives
//! outside the library and only forwards events here.

use crate::game::Game;
use crate::protocol::{
    message_from_json, spec_parse_message, spec_world_json, update_to_json, world_to_json,
    ClientMessage, MessageView, World,
};
use crate::server::{client_index, has_client, tick_rel, ClientId, ClientView, Server};
use vstd::prelude::*;

verus! {

/// Admits a fresh connection: the client enters the table and the returned
/// text is the world snapshot it must be sent.
pub fn connect_client<G: Game>(server: &mut Server<G>) -> (r: (ClientId, String))
    requires
        old(server).wf(),
        old(server)@.next_client_id < u64::MAX,
    ensures
        final(server).wf(),
        final(server)@.frame == old(server)@.frame,
        final(server)@.removed_players == old(server)@.removed_players,
        final(server)@.next_client_id == old(server)@.next_client_id + 1,
        final(server)@.clients == old(server)@.clients.push(
            (old(server)@.next_client_id, ClientView::Connected),
        ),
        final(server).world_spec() == old(server).world_spec(),
        r.0@ == old(server)@.next_client_id,
        r.1@ == spec_world_json(
            old(server)@.frame,
            old(server).game_spec().world_blob(&old(server).world_spec()),
        ),
{
    let frame = server.frame();
    let world = server.serialize_world();
    let (id, _state) = server.client_connected();
    let snapshot = World { frame, world };
    let text = world_to_json(&snapshot);
    (id, text)
}

/// Dispatches one text a client sent. The result says whether the client
/// survives: a text outside the message grammar, a join the server refuses,
/// or an input it refuses all terminate the client (which is then already
/// out of the table, its player pending removal if it was in-game).
pub fn handle_client_message<G: Game>(server: &mut Server<G>, client: ClientId, text: &str) -> (keep:
    bool)
    requires
        old(server).wf(),
        has_client(old(server)@, client@),
    ensures
        final(server).wf(),
        final(server)@.frame == old(server)@.frame,
        final(server)@.next_client_id == old(server)@.next_client_id,
        final(server).world_spec() == old(server).world_spec(),
        keep ==> has_client(final(server)@, client@),
        !keep ==> final(server)@.clients == old(server)@.clients.remove(
            client_index(old(server)@, client@),
        ),
        spec_parse_message(text@) is None ==> !keep && final(server)@.removed_players == (
        match old(server)@.clients[client_index(old(server)@, client@)].1 {
            ClientView::InGame { player_id, .. } => old(server)@.removed_players.push(player_id),
            _ => old(server)@.removed_players,
        }),
        ({
            let st = old(server)@.clients[client_index(old(server)@, client@)].1;
            match spec_parse_message(text@) {
                Some(MessageView::Join { frame }) => keep <==> (st is Connected && frame
                    >= old(server)@.frame && frame < u64::MAX),
                Some(MessageView::Input { frame, input }) => keep <==> (!(st is Connected)
                    && frame < u64::MAX && old(server).game_spec().blob_decodes(input) && (
                match st {
                    ClientView::Waiting { queue, .. } => frame == queue.next,
                    ClientView::InGame { queue, .. } => frame == queue.next,
                    _ => false,
                })),
                None => !keep,
            }
        }),
{
    let message = match message_from_json(text) {
        Ok(m) => m,
        Err(_) => {
            server.client_disconnected(client);
            return false;
        },
    };
    let ghost i = client_index(old(server)@, client@);
    let keep = match message {
        ClientMessage::Join { frame } => server.client_joined(client, frame).is_ok(),
        ClientMessage::Input { frame, input } => server.client_input(
            client,
            frame,
            input.as_slice(),
        ).is_ok(),
    };
    proof {
        if keep {
            assert(server@.clients[i].0 == client@);
            assert(has_client(server@, client@));
        }
    }
    keep
}

/// Runs one tick and renders the broadcast for it: every client must be
/// sent the returned text.
pub fn tick_message<G: Game>(server: &mut Server<G>) -> (r: String)
    requires
        old(server).wf(),
        old(server)@.frame < u64::MAX,
    ensures
        final(server).wf(),
        final(server)@.frame == old(server)@.frame + 1,
        exists|ids: Seq<u64>, upd: crate::game::FrameUpdateView<G::Input>|
            {
                &&& tick_rel(old(server)@, final(server)@, upd, ids)
                &&& exists|blobs: Seq<(u64, Seq<u8>)>|
                    r@ == crate::protocol::spec_update_json(
                        upd.new_players,
                        upd.removed_players,
                        blobs,
                    ) && blobs.len() == upd.player_inputs.len() && (forall|k: int|
                        0 <= k < blobs.len() ==> #[trigger] blobs[k] == (
                            upd.player_inputs[k].0,
                            old(server).game_spec().input_blob(&upd.player_inputs[k].1),
                        ))
            },
{
    let update = server.game_tick();
    let ghost updv = update@;
    let rendered = server.render_update(update);
    let text = update_to_json(&rendered);
    proof {
        let blobs = crate::protocol::inputs_view(rendered.inputs@);
        assert(blobs.len() == updv.player_inputs.len());
        assert forall|k: int| 0 <= k < blobs.len() implies #[trigger] blobs[k] == (
            updv.player_inputs[k].0,
            old(server).game_spec().input_blob(&updv.player_inputs[k].1),
        ) by {
            assert(blobs[k] == (rendered.inputs@[k].0, rendered.inputs@[k].1@));
        }
    }
    text
}

} // verus!
