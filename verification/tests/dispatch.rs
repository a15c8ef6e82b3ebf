//! Dispatch-core tests: classification of incoming messages, the FIFO
//! queue, subscription fan-out, and pruning.

use dcsjsonrpc::json::{to_text, Json};
use dcsjsonrpc::protocol::{Notification, Request, Response, Version, ID};
use dcsjsonrpc::server::{Incoming, Outcome, Server};

fn sub_params(topic: &str) -> Option<Json> {
    Some(Json::Obj(vec![("name".to_string(), Json::Str(topic.to_string()))]))
}

fn request(method: &str, params: Option<Json>, id: i64) -> Incoming {
    Incoming::Request(Request {
        jsonrpc: Version::V2,
        method: method.to_string(),
        params,
        id: ID::Number(id),
    })
}

fn notification(method: &str, params: Option<Json>) -> Incoming {
    Incoming::Notification(Notification {
        jsonrpc: Version::V2,
        method: method.to_string(),
        params,
    })
}

#[test]
fn subscribe_then_broadcast_delivers_exactly_once() {
    let mut server = Server::new();
    let ack = server.handle_incoming(1, request("subscribe", sub_params("weather"), 1));
    match ack {
        Some(Response::Success { result, id, .. }) => {
            assert_eq!(to_text(&result), "\"ok\"");
            assert!(id.same(&ID::Number(1)));
        }
        _ => panic!("subscribe must be acknowledged with ok"),
    }

    let deliveries = server.broadcast("weather", &Some(Json::Str("rain".to_string())));
    assert_eq!(deliveries.len(), 1);
    assert_eq!(deliveries[0].0, 1);
    assert_eq!(deliveries[0].1.method, "weather");
    assert_eq!(to_text(deliveries[0].1.params.as_ref().unwrap()), "\"rain\"");

    // a broadcast on another topic delivers nothing to it
    assert_eq!(server.broadcast("other", &None).len(), 0);

    // after unsubscribe, no further delivery occurs
    let ack = server.handle_incoming(1, request("unsubscribe", sub_params("weather"), 2));
    assert!(matches!(ack, Some(Response::Success { .. })));
    assert_eq!(server.broadcast("weather", &None).len(), 0);
}

#[test]
fn wildcard_subscriber_receives_every_broadcast() {
    let mut server = Server::new();
    // a subscribe without parameters names the wildcard topic
    server.handle_incoming(9, request("subscribe", None, 1));
    for topic in ["weather", "player", "anything"] {
        let deliveries = server.broadcast(topic, &None);
        assert_eq!(deliveries.len(), 1);
        assert_eq!(deliveries[0].0, 9);
        assert_eq!(deliveries[0].1.method, topic);
    }
}

#[test]
fn broadcast_reaches_topic_and_wildcard_subscribers() {
    let mut server = Server::new();
    server.handle_incoming(1, request("subscribe", sub_params("weather"), 1));
    server.handle_incoming(2, request("subscribe", None, 1));
    let deliveries = server.broadcast("weather", &None);
    let conns: Vec<u64> = deliveries.iter().map(|d| d.0).collect();
    assert_eq!(conns, vec![1, 2]);
}

#[test]
fn pruned_subscriber_is_not_retried() {
    let mut server = Server::new();
    server.handle_incoming(5, request("subscribe", sub_params("weather"), 1));
    server.handle_incoming(6, request("subscribe", sub_params("weather"), 1));
    // connection 5's delivery failed: it is lazily pruned
    server.remove_subscriber(5);
    let deliveries = server.broadcast("weather", &None);
    assert_eq!(deliveries.len(), 1);
    assert_eq!(deliveries[0].0, 6);
}

#[test]
fn queue_is_fifo_across_connections() {
    let mut server = Server::new();
    assert!(server.handle_incoming(1, request("first", None, 1)).is_none());
    assert!(server.handle_incoming(2, request("second", None, 1)).is_none());
    assert!(server.handle_incoming(1, notification("third", None)).is_none());

    let a = server.try_next().expect("first pending call");
    assert_eq!(a.conn, 1);
    assert_eq!(a.req.method(), "first");
    let b = server.try_next().expect("second pending call");
    assert_eq!(b.conn, 2);
    assert_eq!(b.req.method(), "second");
    let c = server.try_next().expect("third pending call");
    assert_eq!(c.req.method(), "third");
    assert!(server.try_next().is_none());
}

#[test]
fn control_methods_never_reach_the_queue() {
    let mut server = Server::new();
    server.handle_incoming(1, request("subscribe", sub_params("weather"), 1));
    server.handle_incoming(1, request("unsubscribe", sub_params("weather"), 2));
    server.handle_incoming(1, notification("subscribe", sub_params("radio")));
    assert!(server.try_next().is_none());
}

#[test]
fn notifications_are_never_answered() {
    let mut server = Server::new();
    // a control notification gets no acknowledgement
    assert!(server.handle_incoming(1, notification("subscribe", None)).is_none());
    // a queued notification has no reply handle
    server.handle_incoming(1, notification("fire", None));
    let pending = server.try_next().unwrap();
    assert!(pending.success(Json::Str("ignored".to_string())).is_none());
    server.handle_incoming(1, notification("fire", None));
    let pending = server.try_next().unwrap();
    assert!(pending.error("ignored".to_string()).is_none());
}

#[test]
fn bad_subscribe_params_are_answered_with_an_error() {
    let mut server = Server::new();
    let reply = server.handle_incoming(1, request("subscribe", Some(Json::Int(5)), 8));
    match reply {
        Some(Response::Error { error, id, .. }) => {
            assert_eq!(error.code, 1);
            assert_eq!(error.message, "Invalid subscribe/unsubscribe params");
            assert!(id.same(&ID::Number(8)));
        }
        _ => panic!("bad parameters must be answered with an error"),
    }
    // and nothing was queued or registered
    assert!(server.try_next().is_none());
    assert_eq!(server.broadcast("weather", &None).len(), 0);
}

#[test]
fn complete_routes_the_outcome_to_the_origin() {
    let mut server = Server::new();
    server.handle_incoming(3, request("health", None, 77));
    let pending = server.try_next().unwrap();
    let (conn, resp) = Server::complete(pending, Outcome::Success(Json::Int(1))).unwrap();
    assert_eq!(conn, 3);
    assert_eq!(resp.encode(), "{\"jsonrpc\":\"2.0\",\"result\":1,\"id\":77}");

    server.handle_incoming(4, request("health", None, 78));
    let pending = server.try_next().unwrap();
    let (conn, resp) = Server::complete(pending, Outcome::Error("nope".to_string())).unwrap();
    assert_eq!(conn, 4);
    assert_eq!(
        resp.encode(),
        "{\"jsonrpc\":\"2.0\",\"error\":{\"code\":1,\"message\":\"nope\",\"data\":null},\"id\":78}"
    );
}

#[test]
fn take_params_empties_the_message() {
    let mut msg = request("exec", Some(Json::Int(4)), 5);
    let params = msg.take_params();
    assert_eq!(to_text(&params.unwrap()), "4");
    assert!(msg.take_params().is_none());
    assert_eq!(msg.method(), "exec");
}
