//! Client-core tests: ID allocation, correlation routing under interleaved
//! traffic, fan-out of notifications, disconnect cleanup, the diagnostic
//! sweep — and two end-to-end scenarios through the whole stack.

use dcsjsonrpc::client::{raw_event, Client};
use dcsjsonrpc::error::Error;
use dcsjsonrpc::json::{to_text, Json};
use dcsjsonrpc::protocol::{decode_message, Message, Response, Version, ID};
use dcsjsonrpc::server::{Incoming, Outcome, Server};

fn result_text(r: Result<Json, Error>) -> String {
    match r {
        Ok(j) => to_text(&j),
        Err(_) => panic!("expected a successful result"),
    }
}

#[test]
fn ids_are_allocated_monotonically_and_wrap() {
    let mut client = Client::new();
    assert!(client.get_next_id().same(&ID::Number(1)));
    assert!(client.get_next_id().same(&ID::Number(2)));
    client.next_id = i64::MAX;
    assert!(client.get_next_id().same(&ID::Number(i64::MIN)));
}

#[test]
fn responses_route_to_the_matching_caller_only() {
    let mut client = Client::new();
    let req_a = client.prepare_request("ping", None, 101, 0);
    let req_b = client.prepare_request("ping", None, 102, 0);
    assert!(!req_a.id.same(&req_b.id));

    // the second caller's answer arrives first
    let resp_b = Response::Success { jsonrpc: Version::V2, result: Json::Int(2), id: req_b.id.dup() };
    let (slot, routed) = client.accept_response(resp_b).expect("known id must route");
    assert_eq!(slot, 102);
    assert!(routed.id().same(&req_b.id));

    let resp_a = Response::Success { jsonrpc: Version::V2, result: Json::Int(1), id: req_a.id.dup() };
    let (slot, _) = client.accept_response(resp_a).expect("known id must route");
    assert_eq!(slot, 101);

    // a response for an unknown id is discarded without touching anything
    let stray = Response::Success { jsonrpc: Version::V2, result: Json::Null, id: ID::Number(999) };
    assert!(client.accept_response(stray).is_none());
}

#[test]
fn notifications_never_create_a_correlation_entry() {
    let mut client = Client::new();
    let n = client.make_notification("fire", Some(Json::Int(1)));
    assert_eq!(n.method, "fire");
    // nothing is outstanding: any response is a correlation miss
    let resp = Response::Success { jsonrpc: Version::V2, result: Json::Null, id: ID::Number(1) };
    assert!(client.accept_response(resp).is_none());
}

#[test]
fn interpret_splits_remote_errors_from_results() {
    let ok = Response::Success {
        jsonrpc: Version::V2,
        result: Json::Str("pong".to_string()),
        id: ID::Number(1),
    };
    assert_eq!(result_text(Client::interpret_response(ok)), "\"pong\"");

    let err = Response::Error {
        jsonrpc: Version::V2,
        error: dcsjsonrpc::protocol::RpcError {
            code: 4,
            message: "no such group".to_string(),
            data: None,
        },
        id: ID::Number(1),
    };
    match Client::interpret_response(err) {
        Err(Error::Rpc(e)) => {
            assert_eq!(e.code, 4);
            assert_eq!(e.message, "no such group");
        }
        _ => panic!("a remote error must surface as Error::Rpc"),
    }
}

#[test]
fn fanout_goes_to_every_subscription_until_pruned() {
    let mut client = Client::new();
    client.add_subscription(11);
    client.add_subscription(12);
    assert_eq!(client.fanout_targets(), vec![11, 12]);
    // channel 11 failed to accept an event: it is pruned
    client.remove_subscription(11);
    assert_eq!(client.fanout_targets(), vec![12]);
}

#[test]
fn events_carry_the_camel_cased_method() {
    let event = raw_event("player_sent_chat", Json::Int(3));
    match event {
        Json::Obj(m) => {
            assert_eq!(m.len(), 1);
            assert_eq!(m[0].0, "PlayerSentChat");
        }
        _ => panic!("an event is an object"),
    }
}

#[test]
fn disconnect_cleans_up_outstanding_calls() {
    let mut client = Client::new();
    client.prepare_request("ping", None, 55, 0);
    client.prepare_request("ping", None, 56, 0);
    let orphaned = client.take_all_pending();
    // each waiting caller is handed a local transport error instead of
    // hanging forever, distinguishable by variant from a remote error
    let delivered: Vec<(u64, Error)> = orphaned.iter().map(|p| (p.slot, Error::Recv)).collect();
    assert_eq!(delivered.len(), 2);
    assert!(matches!(delivered[0], (55, Error::Recv)));
    assert!(matches!(delivered[1], (56, Error::Recv)));
    // and nothing is left outstanding
    let stray = Response::Success { jsonrpc: Version::V2, result: Json::Null, id: ID::Number(1) };
    assert!(client.accept_response(stray).is_none());
}

#[test]
fn sweep_reports_and_refreshes_without_evicting() {
    let mut client = Client::new();
    let req = client.prepare_request("slow", None, 7, 1000);
    let stale = client.sweep(2000, 60_000);
    assert_eq!(stale.len(), 0, "a young call is not reported");
    let stale = client.sweep(61_000, 60_000);
    assert_eq!(stale.len(), 1, "an old call is reported");
    assert!(stale[0].same(&req.id));
    let stale = client.sweep(61_001, 60_000);
    assert_eq!(stale.len(), 0, "the stamp was refreshed");
    // the call is still outstanding: its answer still routes
    let resp = Response::Success { jsonrpc: Version::V2, result: Json::Null, id: req.id.dup() };
    assert_eq!(client.accept_response(resp).unwrap().0, 7);
}

/// One call, end to end: the client issues `ping` with id 1, the host
/// drains it and answers `"pong"`, and the caller gets exactly that.
#[test]
fn ping_pong_through_the_whole_stack() {
    let mut client = Client::new();
    let mut server = Server::new();

    let req = client.prepare_request("ping", None, 500, 0);
    let line = req.encode();
    assert_eq!(line, "{\"jsonrpc\":\"2.0\",\"method\":\"ping\",\"params\":null,\"id\":1}");

    // the server decodes the line and queues the call
    let incoming = match decode_message(&line).unwrap() {
        Message::Request(r) => Incoming::Request(r),
        _ => panic!("the line is a request"),
    };
    assert!(server.handle_incoming(1, incoming).is_none());

    // the host polls once and answers
    let pending = server.try_next().expect("work was queued");
    assert_eq!(pending.req.method(), "ping");
    let (conn, response) = Server::complete(
        pending,
        Outcome::Success(Json::Str("pong".to_string())),
    )
    .expect("a request is answered");
    assert_eq!(conn, 1);

    // the client demultiplexes the response back to the caller
    let reply_line = response.encode();
    let resp = match decode_message(&reply_line).unwrap() {
        Message::Response(r) => r,
        _ => panic!("the line is a response"),
    };
    let (slot, routed) = client.accept_response(resp).expect("the id is outstanding");
    assert_eq!(slot, 500);
    assert_eq!(result_text(Client::interpret_response(routed)), "\"pong\"");
}

/// Two clients call `ping` concurrently with distinct IDs; both answers
/// come back correctly attributed even though one single-threaded host
/// serves them from one queue — and out of order.
#[test]
fn two_clients_get_their_own_answers() {
    let mut client_a = Client::new();
    let mut client_b = Client::new();
    let mut server = Server::new();

    let req_a = client_a.prepare_request("ping", Some(Json::Str("a".to_string())), 1, 0);
    let req_b = client_b.prepare_request("ping", Some(Json::Str("b".to_string())), 2, 0);

    for (conn, line) in [(10u64, req_a.encode()), (20u64, req_b.encode())] {
        let incoming = match decode_message(&line).unwrap() {
            Message::Request(r) => Incoming::Request(r),
            _ => panic!("the line is a request"),
        };
        server.handle_incoming(conn, incoming);
    }

    // the host answers each call with its own payload, FIFO
    let mut outgoing: Vec<(u64, Response)> = Vec::new();
    while let Some(mut pending) = server.try_next() {
        let payload = pending.req.take_params().unwrap();
        outgoing.push(Server::complete(pending, Outcome::Success(payload)).unwrap());
    }
    assert_eq!(outgoing.len(), 2);
    assert_eq!(outgoing[0].0, 10);
    assert_eq!(outgoing[1].0, 20);

    // deliver in swapped order: each client still gets its own result
    let (_, resp_b) = outgoing.pop().unwrap();
    let (_, resp_a) = outgoing.pop().unwrap();
    let (slot_b, routed_b) = client_b.accept_response(resp_b).unwrap();
    assert_eq!(slot_b, 2);
    assert_eq!(result_text(Client::interpret_response(routed_b)), "\"b\"");
    let (slot_a, routed_a) = client_a.accept_response(resp_a).unwrap();
    assert_eq!(slot_a, 1);
    assert_eq!(result_text(Client::interpret_response(routed_a)), "\"a\"");
}
