//! How a HyperDHT node answers the requests other nodes send it: storage
//! commands go to its store and the store's answer becomes a reply, an
//! error or no reply at all; handshake and hole-punch requests are routed,
//! and what the routing decided becomes the reply.
use vstd::prelude::*;
use crate::messages::Ipv4Peer;
use crate::persistent::{total_of, HandlerReply, IncomingHyperRequest, Persistent};
use crate::hyperdht_messages::{
    ANNOUNCE, FIND_PEER, IMMUTABLE_GET, IMMUTABLE_PUT, LOOKUP, MUTABLE_GET, MUTABLE_PUT, PEER_HANDSHAKE, PEER_HOLEPUNCH,
    UNANNOUNCE,
};

verus! {

/// Where a request goes.
#[derive(PartialEq, Eq, Structural)]
pub enum Route {
    Handshake,
    Holepunch,
    FindPeer,
    Lookup,
    Announce,
    Unannounce,
    MutablePut,
    MutableGet,
    ImmutablePut,
    ImmutableGet,
    /// Answered with nothing: an announcement or withdrawal without the
    /// sender's node id.
    Silent,
    /// A command this node does not know: dropped.
    Unknown,
}

/// Where a request with `command` goes; `has_id` says whether the sender
/// gave its node id.
pub open spec fn route_spec(command: u64, has_id: bool) -> Route {
    if command == PEER_HANDSHAKE {
        Route::Handshake
    } else if command == PEER_HOLEPUNCH {
        Route::Holepunch
    } else if command == FIND_PEER {
        Route::FindPeer
    } else if command == LOOKUP {
        Route::Lookup
    } else if command == ANNOUNCE {
        if has_id {
            Route::Announce
        } else {
            Route::Silent
        }
    } else if command == UNANNOUNCE {
        if has_id {
            Route::Unannounce
        } else {
            Route::Silent
        }
    } else if command == MUTABLE_PUT {
        Route::MutablePut
    } else if command == MUTABLE_GET {
        Route::MutableGet
    } else if command == IMMUTABLE_PUT {
        Route::ImmutablePut
    } else if command == IMMUTABLE_GET {
        Route::ImmutableGet
    } else {
        Route::Unknown
    }
}

/// Where a request goes (see [`route_spec`]).
pub fn route_request(command: u64, has_id: bool) -> (r: Route)
    ensures
        r == route_spec(command, has_id),
{
    if command == PEER_HANDSHAKE {
        Route::Handshake
    } else if command == PEER_HOLEPUNCH {
        Route::Holepunch
    } else if command == FIND_PEER {
        Route::FindPeer
    } else if command == LOOKUP {
        Route::Lookup
    } else if command == ANNOUNCE {
        if has_id {
            Route::Announce
        } else {
            Route::Silent
        }
    } else if command == UNANNOUNCE {
        if has_id {
            Route::Unannounce
        } else {
            Route::Silent
        }
    } else if command == MUTABLE_PUT {
        Route::MutablePut
    } else if command == MUTABLE_GET {
        Route::MutableGet
    } else if command == IMMUTABLE_PUT {
        Route::ImmutablePut
    } else if command == IMMUTABLE_GET {
        Route::ImmutableGet
    } else {
        Route::Unknown
    }
}

/// What the node does with a request.
#[derive(Debug)]
pub enum RequestAction {
    /// Route it as a peer handshake.
    Handshake,
    /// Route it as a hole-punch message.
    Holepunch,
    /// Reply with this value.
    Reply(Option<Vec<u8>>),
    /// Reply with this error code.
    Error(u64),
    /// Send no reply.
    Drop,
}

/// The action for a store's answer: a value is sent as the reply (with or
/// without token), an error code as an error, silence as no reply.
pub open spec fn reply_spec(h: HandlerReply) -> RequestAction {
    match h {
        HandlerReply::Value(v) => RequestAction::Reply(v),
        HandlerReply::ValueNoToken(v) => RequestAction::Reply(v),
        HandlerReply::Error(c) => RequestAction::Error(c),
        HandlerReply::Silent => RequestAction::Drop,
    }
}

/// The action for a store's answer (see [`reply_spec`]).
pub fn reply_action(h: HandlerReply) -> (r: RequestAction)
    ensures
        r == reply_spec(h),
{
    match h {
        HandlerReply::Value(v) => RequestAction::Reply(v),
        HandlerReply::ValueNoToken(v) => RequestAction::Reply(v),
        HandlerReply::Error(c) => RequestAction::Error(c),
        HandlerReply::Silent => RequestAction::Drop,
    }
}

/// Handles a request from another node: handshake and hole-punch requests
/// are handed back for routing; storage commands run on `store` and their
/// answer becomes the action (see [`reply_spec`]); an announcement or
/// withdrawal without the sender's node id, and an unknown command, are
/// dropped. For a storage command, the action is the one for an answer `h`
/// of which that command's handler on [`Persistent`] states what it states,
/// together with the store's change.
pub fn dispatch_request(store: &mut Persistent, req: &IncomingHyperRequest) -> (r: RequestAction)
    requires
        old(store).wf(),
        total_of(old(store).spec_records()) < usize::MAX,
        req.value matches Some(v) ==> v@.len() <= usize::MAX / 2,
    ensures
        final(store).wf(),
        match route_spec(req.command, req.id is Some) {
            Route::Handshake => r is Handshake && *final(store) == *old(store),
            Route::Holepunch => r is Holepunch && *final(store) == *old(store),
            Route::Silent => r is Drop && *final(store) == *old(store),
            Route::Unknown => r is Drop && *final(store) == *old(store),
            Route::FindPeer => *final(store) == *old(store) && exists|h: HandlerReply|
                #[trigger] reply_spec(h) == r && old(store).find_peer_post(*req, h),
            Route::MutableGet => *final(store) == *old(store) && exists|h: HandlerReply|
                #[trigger] reply_spec(h) == r && old(store).mutable_get_post(*req, h),
            Route::ImmutableGet => *final(store) == *old(store) && exists|h: HandlerReply|
                #[trigger] reply_spec(h) == r && old(store).immutable_get_post(*req, h),
            Route::Lookup => exists|h: HandlerReply|
                #[trigger] reply_spec(h) == r && Persistent::lookup_post(*old(store), *final(store), *req, h),
            Route::Announce => exists|h: HandlerReply|
                #[trigger] reply_spec(h) == r && Persistent::announce_post(
                    *old(store),
                    *final(store),
                    *req,
                    req.id->0,
                    h,
                ),
            Route::Unannounce => exists|h: HandlerReply|
                #[trigger] reply_spec(h) == r && Persistent::unannounce_post(
                    *old(store),
                    *final(store),
                    *req,
                    req.id->0,
                    h,
                ),
            Route::MutablePut => exists|h: HandlerReply|
                #[trigger] reply_spec(h) == r && Persistent::mutable_put_post(*old(store), *final(store), *req, h),
            Route::ImmutablePut => exists|h: HandlerReply|
                #[trigger] reply_spec(h) == r && Persistent::immutable_put_post(*old(store), *final(store), *req, h),
        },
{
    match route_request(req.command, req.id.is_some()) {
        Route::Handshake => RequestAction::Handshake,
        Route::Holepunch => RequestAction::Holepunch,
        Route::Silent => RequestAction::Drop,
        Route::Unknown => RequestAction::Drop,
        Route::FindPeer => {
            let h = store.on_find_peer(req);
            let ghost hv = h;
            let r = reply_action(h);
            assert(reply_spec(hv) == r);
            r
        },
        Route::Lookup => {
            let h = store.on_lookup(req);
            let ghost hv = h;
            let r = reply_action(h);
            assert(reply_spec(hv) == r);
            r
        },
        Route::Announce => {
            let node_id = match &req.id {
                Some(id) => *id,
                None => return RequestAction::Drop,
            };
            let h = store.on_announce(req, &node_id);
            let ghost hv = h;
            let r = reply_action(h);
            assert(reply_spec(hv) == r);
            r
        },
        Route::Unannounce => {
            let node_id = match &req.id {
                Some(id) => *id,
                None => return RequestAction::Drop,
            };
            let h = store.on_unannounce(req, &node_id);
            let ghost hv = h;
            let r = reply_action(h);
            assert(reply_spec(hv) == r);
            r
        },
        Route::MutablePut => {
            let h = store.on_mutable_put(req);
            let ghost hv = h;
            let r = reply_action(h);
            assert(reply_spec(hv) == r);
            r
        },
        Route::MutableGet => {
            let h = store.on_mutable_get(req);
            let ghost hv = h;
            let r = reply_action(h);
            assert(reply_spec(hv) == r);
            r
        },
        Route::ImmutablePut => {
            let h = store.on_immutable_put(req);
            let ghost hv = h;
            let r = reply_action(h);
            assert(reply_spec(hv) == r);
            r
        },
        Route::ImmutableGet => {
            let h = store.on_immutable_get(req);
            let ghost hv = h;
            let r = reply_action(h);
            assert(reply_spec(hv) == r);
            r
        },
    }
}

// ── Routed handshake and hole-punch requests ────────────────────────────────

/// What routing decided for a handshake request.
pub enum HandshakeRouting {
    /// Forward `value` to the node `to`.
    Relay { value: Vec<u8>, to: Ipv4Peer },
    /// Answer with `value`.
    Reply(Vec<u8>),
    /// The handshake is for a server of this node.
    HandleLocally,
    /// This node does not know the target: answer with closer nodes only.
    CloserNodes,
    /// Ignore it.
    Drop,
}

/// What routing decided for a hole-punch request.
pub enum HolepunchRouting {
    /// Forward `value` to the node `to`.
    Relay { value: Vec<u8>, to: Ipv4Peer },
    /// Send the reply `value` on to the node `to`.
    Reply { value: Vec<u8>, to: Ipv4Peer },
    /// The message is for a server of this node.
    HandleLocally,
    /// Ignore it.
    Drop,
}

/// What the node does with a routed request.
pub enum PeerReply {
    /// Answer with this error code.
    Error(u64),
    /// Send `value` to `to` as a relayed request, then answer with no value.
    RelayThenReply { value: Vec<u8>, to: Ipv4Peer },
    /// Answer with this value.
    Reply(Option<Vec<u8>>),
    /// Hand the request to the local server and answer with what it answers.
    Forward,
    /// Send no reply.
    Drop,
}

/// The reply to a handshake request. Without a value, or when routing
/// failed (`None`), the answer is error 1. A relay is forwarded and answered
/// with no value; a reply is sent; a local handshake goes to the server, or
/// is answered with no value when no server listens; closer nodes only are
/// answered with no value; a drop sends nothing.
pub fn route_handshake_reply(has_value: bool, routed: Option<HandshakeRouting>, server_listening: bool) -> (r: PeerReply)
    ensures
        !has_value ==> r == PeerReply::Error(1),
        has_value ==> match routed {
            None => r == PeerReply::Error(1),
            Some(HandshakeRouting::Relay { value, to }) => r == (PeerReply::RelayThenReply { value, to }),
            Some(HandshakeRouting::Reply(v)) => r == PeerReply::Reply(Some(v)),
            Some(HandshakeRouting::HandleLocally) => r == if server_listening {
                PeerReply::Forward
            } else {
                PeerReply::Reply(None)
            },
            Some(HandshakeRouting::CloserNodes) => r == PeerReply::Reply(None),
            Some(HandshakeRouting::Drop) => r == PeerReply::Drop,
        },
{
    if !has_value {
        return PeerReply::Error(1);
    }
    match routed {
        None => PeerReply::Error(1),
        Some(HandshakeRouting::Relay { value, to }) => PeerReply::RelayThenReply { value, to },
        Some(HandshakeRouting::Reply(v)) => PeerReply::Reply(Some(v)),
        Some(HandshakeRouting::HandleLocally) => if server_listening {
            PeerReply::Forward
        } else {
            PeerReply::Reply(None)
        },
        Some(HandshakeRouting::CloserNodes) => PeerReply::Reply(None),
        Some(HandshakeRouting::Drop) => PeerReply::Drop,
    }
}

/// The reply to a hole-punch request. Without a value, or when routing
/// failed (`None`), the answer is error 1. A relay or a reply is sent on to
/// its node and answered with no value; a local message goes to the server,
/// or is answered with no value when no server listens; a drop sends nothing.
pub fn route_holepunch_reply(has_value: bool, routed: Option<HolepunchRouting>, server_listening: bool) -> (r: PeerReply)
    ensures
        !has_value ==> r == PeerReply::Error(1),
        has_value ==> match routed {
            None => r == PeerReply::Error(1),
            Some(HolepunchRouting::Relay { value, to }) => r == (PeerReply::RelayThenReply { value, to }),
            Some(HolepunchRouting::Reply { value, to }) => r == (PeerReply::RelayThenReply { value, to }),
            Some(HolepunchRouting::HandleLocally) => r == if server_listening {
                PeerReply::Forward
            } else {
                PeerReply::Reply(None)
            },
            Some(HolepunchRouting::Drop) => r == PeerReply::Drop,
        },
{
    if !has_value {
        return PeerReply::Error(1);
    }
    match routed {
        None => PeerReply::Error(1),
        Some(HolepunchRouting::Relay { value, to }) => PeerReply::RelayThenReply { value, to },
        Some(HolepunchRouting::Reply { value, to }) => PeerReply::RelayThenReply { value, to },
        Some(HolepunchRouting::HandleLocally) => if server_listening {
            PeerReply::Forward
        } else {
            PeerReply::Reply(None)
        },
        Some(HolepunchRouting::Drop) => PeerReply::Drop,
    }
}

/// The answer to a request handed to the local server: what the server
/// answered, or error 1 when it went away without answering.
pub fn forwarded_reply(answer: Option<Option<Vec<u8>>>) -> (r: PeerReply)
    ensures
        match answer {
            Some(v) => r == PeerReply::Reply(v),
            None => r == PeerReply::Error(1),
        },
{
    match answer {
        Some(v) => PeerReply::Reply(v),
        None => PeerReply::Error(1),
    }
}

} // verus!
