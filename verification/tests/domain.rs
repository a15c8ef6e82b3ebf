//! Tests for the host-boundary helpers and the domain data types.

use dcsjsonrpc::error::{argument_type_error, parse_broadcast_payload, parse_host_result, ServerError};
use dcsjsonrpc::identifier::{Identifier, IdentifierError};
use dcsjsonrpc::json::{from_text, to_text, Json};
use dcsjsonrpc::tasks::{
    AltitudeType, Skill, StaticCategory, TaskKind, WaypointAction, WaypointType,
};

#[test]
fn argument_type_error_names_argument_and_kind() {
    match argument_type_error("callback", "function") {
        ServerError::ArgumentType(name, kind) => {
            assert_eq!(name, "callback");
            assert_eq!(kind, "function");
        }
        _ => panic!("wrong variant"),
    }
}

#[test]
fn host_result_text_must_be_json() {
    assert_eq!(to_text(&parse_host_result("{\"ok\":true}").unwrap()), "{\"ok\":true}");
    match parse_host_result("{oops") {
        Err(ServerError::SerializeResult(t)) => assert_eq!(t, "{oops"),
        _ => panic!("a bad result text is a local error, never sent"),
    }
}

#[test]
fn broadcast_payload_null_means_absent() {
    assert!(parse_broadcast_payload("null").unwrap().is_none());
    assert_eq!(to_text(&parse_broadcast_payload("5").unwrap().unwrap()), "5");
    match parse_broadcast_payload("") {
        Err(ServerError::SerializeBroadcast(t)) => assert_eq!(t, ""),
        _ => panic!("an empty payload text is a local error"),
    }
}

#[test]
fn identifier_round_trips_both_forms() {
    for ident in [
        Identifier::Name("Aerial-1".to_string()),
        Identifier::ID(314),
        Identifier::ID(i64::MAX as usize),
        Identifier::ID(i64::MAX as usize + 1),
        Identifier::ID(usize::MAX),
    ] {
        let json = ident.to_json();
        let back = Identifier::from_json(&json).unwrap();
        assert!(back == ident);
    }
    assert_eq!(to_text(&Identifier::ID(7).to_json()), "{\"id\":7}");
    assert_eq!(
        to_text(&Identifier::Name("x".to_string()).to_json()),
        "{\"name\":\"x\"}"
    );
}

#[test]
fn oversized_ids_survive_the_wire_as_decimal_tokens() {
    // beyond the signed 64-bit range the id is written as a plain decimal
    // number, which the parser keeps losslessly as a raw token
    let ident = Identifier::ID(usize::MAX);
    let line = to_text(&ident.to_json());
    assert_eq!(line, "{\"id\":18446744073709551615}");
    let parsed = from_text(&line).expect("the line is JSON");
    assert!(Identifier::from_json(&parsed).unwrap() == ident);

    // a non-numeric token in the id field is a type error
    let bad = Json::Obj(vec![("id".to_string(), Json::Num("1.5".to_string()))]);
    assert_eq!(Identifier::from_json(&bad).unwrap_err(), IdentifierError::FieldType);
    // so is a decimal token beyond the usize range
    let too_big = Json::Obj(vec![(
        "id".to_string(),
        Json::Num("18446744073709551616".to_string()),
    )]);
    assert_eq!(Identifier::from_json(&too_big).unwrap_err(), IdentifierError::FieldType);
}

#[test]
fn identifier_decoding_matches_the_field_rules() {
    let name_wins = from_text("{\"id\":1,\"name\":\"a\"}").unwrap();
    assert!(Identifier::from_json(&name_wins).unwrap() == Identifier::Name("a".to_string()));

    let dup = from_text("{\"id\":1,\"id\":2}").unwrap();
    assert_eq!(Identifier::from_json(&dup).unwrap_err(), IdentifierError::DuplicateField);

    let unknown = from_text("{\"nome\":\"a\"}").unwrap();
    assert_eq!(Identifier::from_json(&unknown).unwrap_err(), IdentifierError::UnknownField);

    let missing = from_text("{}").unwrap();
    assert_eq!(Identifier::from_json(&missing).unwrap_err(), IdentifierError::MissingField);

    let bad_type = from_text("{\"id\":\"seven\"}").unwrap();
    assert_eq!(Identifier::from_json(&bad_type).unwrap_err(), IdentifierError::FieldType);

    assert_eq!(
        Identifier::from_json(&Json::Int(4)).unwrap_err(),
        IdentifierError::Shape
    );
}

#[test]
fn identifier_conversions() {
    assert!(Identifier::from(9usize) == Identifier::ID(9));
    assert!(Identifier::from("Aerial-1") == Identifier::Name("Aerial-1".to_string()));
    assert!(Identifier::from("Aerial-1".to_string()) == Identifier::Name("Aerial-1".to_string()));
}

#[test]
fn task_defaults_match_the_conventions() {
    assert_eq!(Skill::default(), Skill::Average);
    assert_eq!(AltitudeType::default(), AltitudeType::Baro);
    assert_eq!(WaypointType::default(), WaypointType::TurningPoint);
    assert_eq!(WaypointAction::default(), WaypointAction::TurningPoint);
    assert_eq!(TaskKind::default(), TaskKind::Nothing);
    assert_eq!(StaticCategory::default(), StaticCategory::Cargos);
}
