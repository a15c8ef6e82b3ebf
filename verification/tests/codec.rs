//! Wire-format tests: exact encodings, decoding by field presence, and the
//! round trip over representative messages of every shape.

use dcsjsonrpc::json::{from_text, to_text, Json};
use dcsjsonrpc::protocol::{
    decode_message, DecodeError, Message, Notification, Request, Response, RpcError, Version, ID,
};

fn obj(members: Vec<(&str, Json)>) -> Json {
    Json::Obj(members.into_iter().map(|(k, v)| (k.to_string(), v)).collect())
}

fn s(text: &str) -> Json {
    Json::Str(text.to_string())
}

#[test]
fn encodes_request_exactly() {
    let req = Request {
        jsonrpc: Version::V2,
        method: "ping".to_string(),
        params: None,
        id: ID::Number(1),
    };
    assert_eq!(
        req.encode(),
        "{\"jsonrpc\":\"2.0\",\"method\":\"ping\",\"params\":null,\"id\":1}"
    );
}

#[test]
fn encodes_notification_without_id() {
    let n = Notification {
        jsonrpc: Version::V2,
        method: "weather".to_string(),
        params: Some(s("rain")),
    };
    assert_eq!(
        n.encode(),
        "{\"jsonrpc\":\"2.0\",\"method\":\"weather\",\"params\":\"rain\"}"
    );
}

#[test]
fn encodes_responses_exactly() {
    let ok = Response::Success {
        jsonrpc: Version::V2,
        result: s("pong"),
        id: ID::String("a7".to_string()),
    };
    assert_eq!(
        ok.encode(),
        "{\"jsonrpc\":\"2.0\",\"result\":\"pong\",\"id\":\"a7\"}"
    );
    let err = Response::Error {
        jsonrpc: Version::V2,
        error: RpcError { code: 1, message: "boom".to_string(), data: None },
        id: ID::Number(7),
    };
    assert_eq!(
        err.encode(),
        "{\"jsonrpc\":\"2.0\",\"error\":{\"code\":1,\"message\":\"boom\",\"data\":null},\"id\":7}"
    );
}

#[test]
fn decodes_request_by_field_presence() {
    let line = "{\"jsonrpc\":\"2.0\",\"method\":\"health\",\"params\":{\"n\":3},\"id\":42}";
    match decode_message(line) {
        Ok(Message::Request(r)) => {
            assert_eq!(r.method, "health");
            assert!(r.id.same(&ID::Number(42)));
            assert_eq!(to_text(r.params.as_ref().unwrap()), "{\"n\":3}");
        }
        other => panic!("not a request: {:?}", kind_of(&other)),
    }
}

#[test]
fn decodes_notification_when_id_is_absent() {
    let line = "{\"jsonrpc\":\"2.0\",\"method\":\"tick\"}";
    match decode_message(line) {
        Ok(Message::Notification(n)) => {
            assert_eq!(n.method, "tick");
            assert!(n.params.is_none());
        }
        other => panic!("not a notification: {:?}", kind_of(&other)),
    }
}

#[test]
fn null_params_count_as_absent() {
    let line = "{\"jsonrpc\":\"2.0\",\"method\":\"tick\",\"params\":null}";
    match decode_message(line) {
        Ok(Message::Notification(n)) => assert!(n.params.is_none()),
        other => panic!("not a notification: {:?}", kind_of(&other)),
    }
}

#[test]
fn decodes_both_response_forms() {
    match decode_message("{\"jsonrpc\":\"2.0\",\"result\":\"ok\",\"id\":\"r1\"}") {
        Ok(Message::Response(Response::Success { result, id, .. })) => {
            assert_eq!(to_text(&result), "\"ok\"");
            assert!(id.same(&ID::String("r1".to_string())));
        }
        other => panic!("not a success: {:?}", kind_of(&other)),
    }
    match decode_message(
        "{\"jsonrpc\":\"2.0\",\"error\":{\"code\":-5,\"message\":\"no\",\"data\":null},\"id\":2}",
    ) {
        Ok(Message::Response(Response::Error { error, id, .. })) => {
            assert_eq!(error.code, -5);
            assert_eq!(error.message, "no");
            assert!(error.data.is_none());
            assert!(id.same(&ID::Number(2)));
        }
        other => panic!("not an error response: {:?}", kind_of(&other)),
    }
}

fn kind_of(r: &Result<Message, DecodeError>) -> &'static str {
    match r {
        Ok(Message::Request(_)) => "request",
        Ok(Message::Notification(_)) => "notification",
        Ok(Message::Response(_)) => "response",
        Err(DecodeError::Json) => "json error",
        Err(DecodeError::Version) => "version error",
        Err(DecodeError::Shape) => "shape error",
        Err(DecodeError::Id) => "id error",
    }
}

#[test]
fn rejects_bad_lines_with_the_right_error() {
    assert_eq!(kind_of(&decode_message("not json")), "json error");
    assert_eq!(
        kind_of(&decode_message("{\"jsonrpc\":\"1.0\",\"method\":\"x\",\"id\":1}")),
        "version error"
    );
    assert_eq!(
        kind_of(&decode_message("{\"method\":\"x\",\"id\":1}")),
        "version error"
    );
    assert_eq!(kind_of(&decode_message("{\"jsonrpc\":\"2.0\"}")), "shape error");
    assert_eq!(kind_of(&decode_message("[1,2,3]")), "shape error");
    assert_eq!(
        kind_of(&decode_message("{\"jsonrpc\":\"2.0\",\"method\":\"x\",\"id\":true}")),
        "id error"
    );
}

fn round_trips(line_value: Json) {
    let text = to_text(&line_value);
    let back = from_text(&text).expect("canonical text must parse");
    assert_eq!(to_text(&back), text);
}

#[test]
fn json_round_trips_representative_values() {
    round_trips(Json::Null);
    round_trips(Json::Bool(true));
    round_trips(Json::Int(0));
    round_trips(Json::Int(-1));
    round_trips(Json::Int(i64::MAX));
    round_trips(Json::Int(i64::MIN));
    round_trips(s(""));
    round_trips(s("line\nbreak\tand \"quotes\" and \\ and \u{1F600} and \u{1}"));
    round_trips(Json::Arr(vec![]));
    round_trips(Json::Arr(vec![Json::Int(1), Json::Null, s("x")]));
    round_trips(obj(vec![]));
    round_trips(obj(vec![
        ("a", Json::Arr(vec![obj(vec![("b", Json::Int(-7))])])),
        ("c", Json::Bool(false)),
    ]));
}

#[test]
fn message_round_trips_both_id_variants() {
    let cases = vec![
        Request {
            jsonrpc: Version::V2,
            method: "ping".to_string(),
            params: None,
            id: ID::Number(1),
        }
        .encode(),
        Request {
            jsonrpc: Version::V2,
            method: "outText".to_string(),
            params: Some(obj(vec![("text", s("hi"))])),
            id: ID::String("k-1".to_string()),
        }
        .encode(),
        Notification {
            jsonrpc: Version::V2,
            method: "tick".to_string(),
            params: Some(Json::Int(9)),
        }
        .encode(),
        Response::Success { jsonrpc: Version::V2, result: Json::Null, id: ID::Number(3) }.encode(),
        Response::Error {
            jsonrpc: Version::V2,
            error: RpcError { code: 1, message: "m".to_string(), data: Some(Json::Int(2)) },
            id: ID::String("z".to_string()),
        }
        .encode(),
    ];
    for line in cases {
        let msg = decode_message(&line).expect("own encoding must decode");
        let again = match msg {
            Message::Request(r) => r.encode(),
            Message::Notification(n) => n.encode(),
            Message::Response(r) => r.encode(),
        };
        assert_eq!(again, line);
    }
}

#[test]
fn parses_numbers_by_form() {
    // plain integers that fit become Int
    match from_text("42").unwrap() {
        Json::Int(n) => assert_eq!(n, 42),
        _ => panic!("42 must be an integer"),
    }
    match from_text("-0").unwrap() {
        Json::Int(n) => assert_eq!(n, 0),
        _ => panic!("-0 must be an integer"),
    }
    // anything else keeps its raw token
    match from_text("1.5").unwrap() {
        Json::Num(t) => assert_eq!(t, "1.5"),
        _ => panic!("1.5 must keep its token"),
    }
    match from_text("1e3").unwrap() {
        Json::Num(t) => assert_eq!(t, "1e3"),
        _ => panic!("1e3 must keep its token"),
    }
    match from_text("18446744073709551615").unwrap() {
        Json::Num(t) => assert_eq!(t, "18446744073709551615"),
        _ => panic!("an oversized integer must keep its token"),
    }
    // malformed numbers are rejected
    assert!(from_text("01").is_none());
    assert!(from_text("1.").is_none());
    assert!(from_text("--1").is_none());
}

#[test]
fn parses_escapes_and_whitespace() {
    match from_text(" {\"a\" : \"\\u0041\\n\\\"\"} ").unwrap() {
        Json::Obj(m) => {
            assert_eq!(m.len(), 1);
            assert_eq!(m[0].0, "a");
            match &m[0].1 {
                Json::Str(v) => assert_eq!(v, "A\n\""),
                _ => panic!("value must be a string"),
            }
        }
        _ => panic!("must be an object"),
    }
    // a surrogate pair decodes to one character
    match from_text("\"\\uD83D\\uDE00\"").unwrap() {
        Json::Str(v) => assert_eq!(v, "\u{1F600}"),
        _ => panic!("must be a string"),
    }
    // a lone surrogate is rejected
    assert!(from_text("\"\\uD83D\"").is_none());
    // trailing text is rejected
    assert!(from_text("1 2").is_none());
}

#[test]
fn canonical_text_is_json_to_other_readers() {
    let value = obj(vec![
        ("k", Json::Arr(vec![Json::Int(-3), s("x\ny"), Json::Null])),
        ("n", Json::Num("2.75".to_string())),
    ]);
    let text = to_text(&value);
    let parsed: serde_json::Value = serde_json::from_str(&text).expect("serde_json must agree");
    assert_eq!(parsed["k"][0], serde_json::Value::from(-3));
    assert_eq!(parsed["n"], serde_json::Value::from(2.75));
}
