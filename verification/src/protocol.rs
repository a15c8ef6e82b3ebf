//! The wire protocol: message shapes (Request, Notification, the two
//! Response forms, ID, version tag) and their JSON encoding and decoding
//! rules.  Decoding is two-phase: a line is first parsed as a generic JSON
//! value, then classified by which fields are present — `method` with `id`
//! is a Request, `method` alone a Notification, `result` a success
//! Response, `error` an error Response.  The version tag is the fixed
//! literal `2.0`; any other value is a decode error for that line.

use vstd::prelude::*;

use crate::json::{from_text, json_valid, parse_text, ser, to_text, Json, JsonV};

verus! {

/// A correlation ID: an integer or a string.
#[derive(Debug)]
pub enum ID {
    Number(i64),
    String(String),
}

/// Mathematical view of an `ID`.
#[verifier::ext_equal]
pub enum IDV {
    Number(i64),
    String(Seq<char>),
}

impl View for ID {
    type V = IDV;

    open spec fn view(&self) -> IDV {
        match self {
            ID::Number(n) => IDV::Number(*n),
            ID::String(s) => IDV::String(s@),
        }
    }
}

impl DeepView for ID {
    type V = IDV;

    open spec fn deep_view(&self) -> IDV {
        self.view()
    }
}

impl ID {
    /// A copy of this ID, equal to it in the model.
    pub fn dup(&self) -> (r: ID)
        ensures
            r@ == self@,
    {
        match self {
            ID::Number(n) => ID::Number(*n),
            ID::String(s) => ID::String(s.clone()),
        }
    }

    /// Whether two IDs denote the same correlation key.
    pub fn same(&self, other: &ID) -> (r: bool)
        ensures
            r == (self@ == other@),
    {
        match (self, other) {
            (ID::Number(a), ID::Number(b)) => *a == *b,
            (ID::String(a), ID::String(b)) => crate::json::str_eq(a.as_str(), b.as_str()),
            _ => false,
        }
    }
}

impl Default for ID {
    /// The default ID is the number zero.
    fn default() -> (r: Self)
        ensures
            r@ == IDV::Number(0),
    {
        ID::Number(0)
    }
}

/// The protocol version tag; the only version is `2.0`.
#[derive(Clone, Copy, PartialEq, Eq, Structural)]
pub enum Version {
    V2,
}

impl Default for Version {
    fn default() -> (r: Self)
        ensures
            r == Version::V2,
    {
        Version::V2
    }
}

/// A call that expects exactly one Response, correlated by `id`.
pub struct Request {
    pub jsonrpc: Version,
    pub method: String,
    pub params: Option<Json>,
    pub id: ID,
}

/// A fire-and-forget call: no `id`, and never a Response.
pub struct Notification {
    pub jsonrpc: Version,
    pub method: String,
    pub params: Option<Json>,
}

/// The error payload of an error Response.
#[derive(Debug)]
pub struct RpcError {
    pub code: i32,
    pub message: String,
    pub data: Option<Json>,
}

/// The reply to a Request: a result or an error, carrying the Request's id.
pub enum Response {
    Success { jsonrpc: Version, result: Json, id: ID },
    Error { jsonrpc: Version, error: RpcError, id: ID },
}

#[verifier::ext_equal]
pub struct RequestV {
    pub method: Seq<char>,
    pub params: Option<JsonV>,
    pub id: IDV,
}

#[verifier::ext_equal]
pub struct NotificationV {
    pub method: Seq<char>,
    pub params: Option<JsonV>,
}

#[verifier::ext_equal]
pub struct RpcErrorV {
    pub code: i32,
    pub message: Seq<char>,
    pub data: Option<JsonV>,
}

#[verifier::ext_equal]
pub enum ResponseV {
    Success { result: JsonV, id: IDV },
    Error { error: RpcErrorV, id: IDV },
}

pub open spec fn opt_json_view(p: Option<Json>) -> Option<JsonV> {
    match p {
        Option::None => Option::None,
        Option::Some(j) => Option::Some(j@),
    }
}

impl View for Request {
    type V = RequestV;

    open spec fn view(&self) -> RequestV {
        RequestV { method: self.method@, params: opt_json_view(self.params), id: self.id@ }
    }
}

impl View for Notification {
    type V = NotificationV;

    open spec fn view(&self) -> NotificationV {
        NotificationV { method: self.method@, params: opt_json_view(self.params) }
    }
}

impl View for RpcError {
    type V = RpcErrorV;

    open spec fn view(&self) -> RpcErrorV {
        RpcErrorV { code: self.code, message: self.message@, data: opt_json_view(self.data) }
    }
}

impl View for Response {
    type V = ResponseV;

    open spec fn view(&self) -> ResponseV {
        match self {
            Response::Success { result, id, .. } => ResponseV::Success {
                result: result@,
                id: id@,
            },
            Response::Error { error, id, .. } => ResponseV::Error { error: error@, id: id@ },
        }
    }
}

/// Any decoded message: what a peer can send on one line.
pub enum Message {
    Request(Request),
    Notification(Notification),
    Response(Response),
}

#[verifier::ext_equal]
pub enum MessageV {
    Request(RequestV),
    Notification(NotificationV),
    Response(ResponseV),
}

impl View for Message {
    type V = MessageV;

    open spec fn view(&self) -> MessageV {
        match self {
            Message::Request(r) => MessageV::Request(r@),
            Message::Notification(n) => MessageV::Notification(n@),
            Message::Response(r) => MessageV::Response(r@),
        }
    }
}

/// Why a line was rejected: not JSON at all, a version tag other than
/// `2.0`, a shape that is no known message, or an `id` that is neither an
/// integer nor a string.
#[derive(Clone, Copy, Debug, PartialEq, Eq, Structural)]
pub enum DecodeError {
    Json,
    Version,
    Shape,
    Id,
}

// ---------------------------------------------------------------------------
// Encoding: message to JSON value
// ---------------------------------------------------------------------------

pub open spec fn jsonrpc_key() -> Seq<char> {
    seq!['j', 's', 'o', 'n', 'r', 'p', 'c']
}

pub open spec fn method_key() -> Seq<char> {
    seq!['m', 'e', 't', 'h', 'o', 'd']
}

pub open spec fn params_key() -> Seq<char> {
    seq!['p', 'a', 'r', 'a', 'm', 's']
}

pub open spec fn id_key() -> Seq<char> {
    seq!['i', 'd']
}

pub open spec fn result_key() -> Seq<char> {
    seq!['r', 'e', 's', 'u', 'l', 't']
}

pub open spec fn error_key() -> Seq<char> {
    seq!['e', 'r', 'r', 'o', 'r']
}

pub open spec fn code_key() -> Seq<char> {
    seq!['c', 'o', 'd', 'e']
}

pub open spec fn message_key() -> Seq<char> {
    seq!['m', 'e', 's', 's', 'a', 'g', 'e']
}

/// The JSON form of the version tag.
pub open spec fn version_json() -> JsonV {
    JsonV::Str(seq!['2', '.', '0'])
}

/// An absent `params` or `data` is written as `null`.
pub open spec fn opt_json(p: Option<JsonV>) -> JsonV {
    match p {
        Option::None => JsonV::Null,
        Option::Some(v) => v,
    }
}

pub open spec fn id_json(id: IDV) -> JsonV {
    match id {
        IDV::Number(n) => JsonV::Int(n),
        IDV::String(s) => JsonV::Str(s),
    }
}

pub open spec fn request_json(r: RequestV) -> JsonV {
    JsonV::Obj(
        seq![
            (jsonrpc_key(), version_json()),
            (method_key(), JsonV::Str(r.method)),
            (params_key(), opt_json(r.params)),
            (id_key(), id_json(r.id)),
        ],
    )
}

pub open spec fn notification_json(n: NotificationV) -> JsonV {
    JsonV::Obj(
        seq![
            (jsonrpc_key(), version_json()),
            (method_key(), JsonV::Str(n.method)),
            (params_key(), opt_json(n.params)),
        ],
    )
}

pub open spec fn rpc_error_json(e: RpcErrorV) -> JsonV {
    JsonV::Obj(
        seq![
            (code_key(), JsonV::Int(e.code as i64)),
            (message_key(), JsonV::Str(e.message)),
            (data_key(), opt_json(e.data)),
        ],
    )
}

pub open spec fn data_key() -> Seq<char> {
    seq!['d', 'a', 't', 'a']
}

pub open spec fn response_json(r: ResponseV) -> JsonV {
    match r {
        ResponseV::Success { result, id } => JsonV::Obj(
            seq![
                (jsonrpc_key(), version_json()),
                (result_key(), result),
                (id_key(), id_json(id)),
            ],
        ),
        ResponseV::Error { error, id } => JsonV::Obj(
            seq![
                (jsonrpc_key(), version_json()),
                (error_key(), rpc_error_json(error)),
                (id_key(), id_json(id)),
            ],
        ),
    }
}

pub open spec fn message_json(m: MessageV) -> JsonV {
    match m {
        MessageV::Request(r) => request_json(r),
        MessageV::Notification(n) => notification_json(n),
        MessageV::Response(r) => response_json(r),
    }
}

// ---------------------------------------------------------------------------
// Encoding, executable level
// ---------------------------------------------------------------------------

fn jsonrpc_key_x() -> (r: String)
    ensures
        r@ == jsonrpc_key(),
{
    let s = String::from_str("jsonrpc");
    proof {
        reveal_strlit("jsonrpc");
        assert(s@ =~= jsonrpc_key());
    }
    s
}

fn method_key_x() -> (r: String)
    ensures
        r@ == method_key(),
{
    let s = String::from_str("method");
    proof {
        reveal_strlit("method");
        assert(s@ =~= method_key());
    }
    s
}

fn params_key_x() -> (r: String)
    ensures
        r@ == params_key(),
{
    let s = String::from_str("params");
    proof {
        reveal_strlit("params");
        assert(s@ =~= params_key());
    }
    s
}

fn id_key_x() -> (r: String)
    ensures
        r@ == id_key(),
{
    let s = String::from_str("id");
    proof {
        reveal_strlit("id");
        assert(s@ =~= id_key());
    }
    s
}

fn result_key_x() -> (r: String)
    ensures
        r@ == result_key(),
{
    let s = String::from_str("result");
    proof {
        reveal_strlit("result");
        assert(s@ =~= result_key());
    }
    s
}

fn error_key_x() -> (r: String)
    ensures
        r@ == error_key(),
{
    let s = String::from_str("error");
    proof {
        reveal_strlit("error");
        assert(s@ =~= error_key());
    }
    s
}

fn code_key_x() -> (r: String)
    ensures
        r@ == code_key(),
{
    let s = String::from_str("code");
    proof {
        reveal_strlit("code");
        assert(s@ =~= code_key());
    }
    s
}

fn message_key_x() -> (r: String)
    ensures
        r@ == message_key(),
{
    let s = String::from_str("message");
    proof {
        reveal_strlit("message");
        assert(s@ =~= message_key());
    }
    s
}

fn data_key_x() -> (r: String)
    ensures
        r@ == data_key(),
{
    let s = String::from_str("data");
    proof {
        reveal_strlit("data");
        assert(s@ =~= data_key());
    }
    s
}

fn version_json_x() -> (r: Json)
    ensures
        r@ == version_json(),
{
    let s = String::from_str("2.0");
    proof {
        reveal_strlit("2.0");
        assert(s@ =~= seq!['2', '.', '0']);
    }
    Json::Str(s)
}

/// The JSON form of an optional parameter value: `null` when absent.
fn opt_to_json(p: &Option<Json>) -> (r: Json)
    ensures
        r@ == opt_json(opt_json_view(*p)),
{
    match p {
        Option::None => Json::Null,
        Option::Some(j) => j.deep_clone(),
    }
}

fn id_to_json(id: &ID) -> (r: Json)
    ensures
        r@ == id_json(id@),
{
    match id {
        ID::Number(n) => Json::Int(*n),
        ID::String(s) => Json::Str(s.clone()),
    }
}

impl Request {
    /// The JSON value this Request is written as.
    pub fn to_json(&self) -> (r: Json)
        ensures
            r@ == request_json(self@),
    {
        let mut m: Vec<(String, Json)> = Vec::new();
        m.push((jsonrpc_key_x(), version_json_x()));
        m.push((method_key_x(), Json::Str(self.method.clone())));
        m.push((params_key_x(), opt_to_json(&self.params)));
        m.push((id_key_x(), id_to_json(&self.id)));
        let r = Json::Obj(m);
        proof {
            broadcast use crate::json::views_of_members_len, crate::json::views_of_members_index;

            assert(request_json(self@) matches JsonV::Obj(ms) && crate::json::views_of_members(
                r->Obj_0@,
            ) =~= ms);
        }
        r
    }

    /// The wire text of this Request (one line, without the delimiter).
    pub fn encode(&self) -> (r: String)
        ensures
            r@ == ser(request_json(self@)),
    {
        to_text(&self.to_json())
    }
}

impl Notification {
    /// The JSON value this Notification is written as.
    pub fn to_json(&self) -> (r: Json)
        ensures
            r@ == notification_json(self@),
    {
        let mut m: Vec<(String, Json)> = Vec::new();
        m.push((jsonrpc_key_x(), version_json_x()));
        m.push((method_key_x(), Json::Str(self.method.clone())));
        m.push((params_key_x(), opt_to_json(&self.params)));
        let r = Json::Obj(m);
        proof {
            broadcast use crate::json::views_of_members_len, crate::json::views_of_members_index;

            assert(notification_json(self@) matches JsonV::Obj(ms)
                && crate::json::views_of_members(r->Obj_0@) =~= ms);
        }
        r
    }

    /// The wire text of this Notification.
    pub fn encode(&self) -> (r: String)
        ensures
            r@ == ser(notification_json(self@)),
    {
        to_text(&self.to_json())
    }
}

impl RpcError {
    /// The JSON value of the error payload.
    pub fn to_json(&self) -> (r: Json)
        ensures
            r@ == rpc_error_json(self@),
    {
        let mut m: Vec<(String, Json)> = Vec::new();
        m.push((code_key_x(), Json::Int(self.code as i64)));
        m.push((message_key_x(), Json::Str(self.message.clone())));
        m.push((data_key_x(), opt_to_json(&self.data)));
        let r = Json::Obj(m);
        proof {
            broadcast use crate::json::views_of_members_len, crate::json::views_of_members_index;

            assert(rpc_error_json(self@) matches JsonV::Obj(ms) && crate::json::views_of_members(
                r->Obj_0@,
            ) =~= ms);
        }
        r
    }
}

impl Response {
    /// The JSON value this Response is written as.
    pub fn to_json(&self) -> (r: Json)
        ensures
            r@ == response_json(self@),
    {
        match self {
            Response::Success { result, id, .. } => {
                let mut m: Vec<(String, Json)> = Vec::new();
                m.push((jsonrpc_key_x(), version_json_x()));
                m.push((result_key_x(), result.deep_clone()));
                m.push((id_key_x(), id_to_json(id)));
                let r = Json::Obj(m);
                proof {
                    broadcast use
                        crate::json::views_of_members_len,
                        crate::json::views_of_members_index;

                    assert(response_json(self@) matches JsonV::Obj(ms)
                        && crate::json::views_of_members(r->Obj_0@) =~= ms);
                }
                r
            },
            Response::Error { error, id, .. } => {
                let mut m: Vec<(String, Json)> = Vec::new();
                m.push((jsonrpc_key_x(), version_json_x()));
                m.push((error_key_x(), error.to_json()));
                m.push((id_key_x(), id_to_json(id)));
                let r = Json::Obj(m);
                proof {
                    broadcast use
                        crate::json::views_of_members_len,
                        crate::json::views_of_members_index;

                    assert(response_json(self@) matches JsonV::Obj(ms)
                        && crate::json::views_of_members(r->Obj_0@) =~= ms);
                }
                r
            },
        }
    }

    /// The wire text of this Response.
    pub fn encode(&self) -> (r: String)
        ensures
            r@ == ser(response_json(self@)),
    {
        to_text(&self.to_json())
    }

    /// The ID this Response answers.
    pub fn id(&self) -> (r: &ID)
        ensures
            r@ == response_id(self@),
    {
        match self {
            Response::Success { id, .. } => id,
            Response::Error { id, .. } => id,
        }
    }
}

pub open spec fn response_id(r: ResponseV) -> IDV {
    match r {
        ResponseV::Success { id, .. } => id,
        ResponseV::Error { id, .. } => id,
    }
}

// ---------------------------------------------------------------------------
// Decoding: classification of a generic JSON value by field presence
// ---------------------------------------------------------------------------

/// Field lookup in an object's members; on a duplicated key the last
/// occurrence wins, as serde-style parsers resolve it.
pub open spec fn lookup(m: Seq<(Seq<char>, JsonV)>, key: Seq<char>) -> Option<JsonV>
    decreases m.len(),
{
    if m.len() == 0 {
        Option::None
    } else if m.last().0 == key {
        Option::Some(m.last().1)
    } else {
        lookup(m.drop_last(), key)
    }
}

/// A `params` or `data` field written as `null` counts as absent.
pub open spec fn flatten_null(v: Option<JsonV>) -> Option<JsonV> {
    match v {
        Option::None => Option::None,
        Option::Some(x) => if x == JsonV::Null {
            Option::None
        } else {
            Option::Some(x)
        },
    }
}

/// An `id` field must be an integer or a string.
pub open spec fn id_of_json(v: JsonV) -> Option<IDV> {
    match v {
        JsonV::Int(n) => Option::Some(IDV::Number(n)),
        JsonV::Str(s) => Option::Some(IDV::String(s)),
        _ => Option::None,
    }
}

pub open spec fn classify_error(em: Seq<(Seq<char>, JsonV)>) -> Option<RpcErrorV> {
    match (lookup(em, code_key()), lookup(em, message_key())) {
        (Option::Some(JsonV::Int(c)), Option::Some(JsonV::Str(msg))) => {
            if i32::MIN as i64 <= c <= i32::MAX as i64 {
                Option::Some(
                    RpcErrorV { code: c as i32, message: msg, data: flatten_null(lookup(em, data_key())) },
                )
            } else {
                Option::None
            }
        },
        _ => Option::None,
    }
}

pub open spec fn classify_response(m: Seq<(Seq<char>, JsonV)>) -> Result<MessageV, DecodeError> {
    match lookup(m, id_key()) {
        Option::None => Result::Err(DecodeError::Shape),
        Option::Some(idv) => match id_of_json(idv) {
            Option::None => Result::Err(DecodeError::Id),
            Option::Some(id) => match lookup(m, result_key()) {
                Option::Some(res) => Result::Ok(
                    MessageV::Response(ResponseV::Success { result: res, id }),
                ),
                Option::None => match lookup(m, error_key()) {
                    Option::Some(JsonV::Obj(em)) => match classify_error(em) {
                        Option::Some(e) => Result::Ok(
                            MessageV::Response(ResponseV::Error { error: e, id }),
                        ),
                        Option::None => Result::Err(DecodeError::Shape),
                    },
                    Option::Some(_) => Result::Err(DecodeError::Shape),
                    Option::None => Result::Err(DecodeError::Shape),
                },
            },
        },
    }
}

/// Second phase of decoding: the message a generic JSON value denotes.
pub open spec fn classify(v: JsonV) -> Result<MessageV, DecodeError> {
    match v {
        JsonV::Obj(m) => {
            if lookup(m, jsonrpc_key()) != Option::Some(version_json()) {
                Result::Err(DecodeError::Version)
            } else {
                match lookup(m, method_key()) {
                    Option::Some(JsonV::Str(meth)) => {
                        let params = flatten_null(lookup(m, params_key()));
                        match lookup(m, id_key()) {
                            Option::None => Result::Ok(
                                MessageV::Notification(NotificationV { method: meth, params }),
                            ),
                            Option::Some(idv) => match id_of_json(idv) {
                                Option::Some(id) => Result::Ok(
                                    MessageV::Request(RequestV { method: meth, params, id }),
                                ),
                                Option::None => Result::Err(DecodeError::Id),
                            },
                        }
                    },
                    Option::Some(_) => Result::Err(DecodeError::Shape),
                    Option::None => classify_response(m),
                }
            }
        },
        _ => Result::Err(DecodeError::Shape),
    }
}

/// Both phases: parse the line as JSON, then classify it.
pub open spec fn spec_decode(s: Seq<char>) -> Result<MessageV, DecodeError> {
    match parse_text(s) {
        Option::None => Result::Err(DecodeError::Json),
        Option::Some(v) => classify(v),
    }
}

// ---------------------------------------------------------------------------
// Decoding, executable level
// ---------------------------------------------------------------------------

/// Finds the member `lookup` describes and hands out a reference to it.
#[verifier::loop_isolation(false)]
pub(crate) fn lookup_x<'a>(m: &'a Vec<(String, Json)>, key: &str) -> (r: Option<&'a Json>)
    ensures
        match r {
            Option::None => lookup(crate::json::views_of_members(m@), key@) is None,
            Option::Some(j) => lookup(crate::json::views_of_members(m@), key@) == Option::Some(
                j@,
            ),
        },
{
    let ghost vm = crate::json::views_of_members(m@);
    proof {
        broadcast use crate::json::views_of_members_len, crate::json::views_of_members_index;

        assert(vm.take(m@.len() as int) =~= vm);
    }
    let mut k: usize = m.len();
    while k > 0
        invariant
            k <= m@.len(),
            lookup(vm, key@) == lookup(vm.take(k as int), key@),
        decreases k,
    {
        k -= 1;
        if crate::json::str_eq(m[k].0.as_str(), key) {
            proof {
                broadcast use
                    crate::json::views_of_members_len,
                    crate::json::views_of_members_index;

                assert(vm.take(k + 1 as int).last() == vm[k as int]);
                assert(vm[k as int].0 == key@);
            }
            return Some(&m[k].1);
        }
        proof {
            broadcast use crate::json::views_of_members_len, crate::json::views_of_members_index;

            assert(vm.take(k + 1 as int).last() == vm[k as int]);
            assert(vm[k as int].0 != key@);
            assert(vm.take(k + 1 as int).drop_last() =~= vm.take(k as int));
        }
    }
    proof {
        assert(vm.take(0) =~= Seq::<(Seq<char>, JsonV)>::empty());
    }
    None
}

/// The owned value of a `params`-like field: `null` and absence both give
/// `None`.
fn flatten_x(v: Option<&Json>) -> (r: Option<Json>)
    ensures
        opt_json_view(r) == flatten_null(
            match v {
                Option::None => Option::<JsonV>::None,
                Option::Some(j) => Option::Some(j@),
            },
        ),
{
    match v {
        Option::None => None,
        Option::Some(j) => match j {
            Json::Null => None,
            other => Some(other.deep_clone()),
        },
    }
}

fn id_from_json(v: &Json) -> (r: Option<ID>)
    ensures
        match (id_of_json(v@), r) {
            (Option::None, Option::None) => true,
            (Option::Some(iv), Option::Some(ie)) => ie@ == iv,
            _ => false,
        },
{
    match v {
        Json::Int(n) => Some(ID::Number(*n)),
        Json::Str(s) => Some(ID::String(s.clone())),
        _ => None,
    }
}

/// The executable decode outcome is what the specification says.
pub open spec fn decode_result_matches(
    sr: Result<MessageV, DecodeError>,
    er: Result<Message, DecodeError>,
) -> bool {
    match (sr, er) {
        (Result::Ok(mv), Result::Ok(me)) => me@ == mv,
        (Result::Err(a), Result::Err(b)) => a == b,
        _ => false,
    }
}

fn classify_error_x(em: &Vec<(String, Json)>) -> (r: Option<RpcError>)
    ensures
        match (classify_error(crate::json::views_of_members(em@)), r) {
            (Option::None, Option::None) => true,
            (Option::Some(ev), Option::Some(ee)) => ee@ == ev,
            _ => false,
        },
{
    let code = match lookup_x(em, "code") {
        Some(Json::Int(c)) => {
            if i32::MIN as i64 <= *c && *c <= i32::MAX as i64 {
                *c as i32
            } else {
                proof {
                    reveal_strlit("code");
                    assert("code"@ =~= code_key());
                }
                return None;
            }
        },
        _ => {
            proof {
                reveal_strlit("code");
                assert("code"@ =~= code_key());
            }
            return None;
        },
    };
    let message = match lookup_x(em, "message") {
        Some(Json::Str(s)) => s.clone(),
        _ => {
            proof {
                reveal_strlit("code");
                reveal_strlit("message");
                assert("code"@ =~= code_key());
                assert("message"@ =~= message_key());
            }
            return None;
        },
    };
    let data = flatten_x(lookup_x(em, "data"));
    proof {
        reveal_strlit("code");
        reveal_strlit("message");
        reveal_strlit("data");
        assert("code"@ =~= code_key());
        assert("message"@ =~= message_key());
        assert("data"@ =~= data_key());
    }
    Some(RpcError { code, message, data })
}

/// Classifies a parsed JSON value into a message, by field presence.
fn classify_x(j: &Json) -> (r: Result<Message, DecodeError>)
    ensures
        decode_result_matches(classify(j@), r),
{
    proof {
        reveal_strlit("jsonrpc");
        reveal_strlit("method");
        reveal_strlit("params");
        reveal_strlit("id");
        reveal_strlit("result");
        reveal_strlit("error");
        reveal_strlit("2.0");
        assert("jsonrpc"@ =~= jsonrpc_key());
        assert("method"@ =~= method_key());
        assert("params"@ =~= params_key());
        assert("id"@ =~= id_key());
        assert("result"@ =~= result_key());
        assert("error"@ =~= error_key());
        assert("2.0"@ =~= seq!['2', '.', '0']);
    }
    let m = match j {
        Json::Obj(m) => m,
        _ => {
            return Err(DecodeError::Shape);
        },
    };
    let version_ok = match lookup_x(m, "jsonrpc") {
        Some(Json::Str(s)) => crate::json::str_eq(s.as_str(), "2.0"),
        _ => false,
    };
    if !version_ok {
        return Err(DecodeError::Version);
    }
    match lookup_x(m, "method") {
        Some(Json::Str(meth)) => {
            let method = meth.clone();
            let params = flatten_x(lookup_x(m, "params"));
            match lookup_x(m, "id") {
                None => Ok(
                    Message::Notification(
                        Notification { jsonrpc: Version::V2, method, params },
                    ),
                ),
                Some(idv) => match id_from_json(idv) {
                    Some(id) => Ok(
                        Message::Request(Request { jsonrpc: Version::V2, method, params, id }),
                    ),
                    None => Err(DecodeError::Id),
                },
            }
        },
        Some(_) => Err(DecodeError::Shape),
        None => {
            // no method: a Response of one of the two forms
            let id = match lookup_x(m, "id") {
                None => {
                    return Err(DecodeError::Shape);
                },
                Some(idv) => match id_from_json(idv) {
                    Some(id) => id,
                    None => {
                        return Err(DecodeError::Id);
                    },
                },
            };
            match lookup_x(m, "result") {
                Some(res) => Ok(
                    Message::Response(
                        Response::Success {
                            jsonrpc: Version::V2,
                            result: res.deep_clone(),
                            id,
                        },
                    ),
                ),
                None => match lookup_x(m, "error") {
                    Some(Json::Obj(em)) => match classify_error_x(em) {
                        Some(error) => Ok(
                            Message::Response(
                                Response::Error { jsonrpc: Version::V2, error, id },
                            ),
                        ),
                        None => Err(DecodeError::Shape),
                    },
                    Some(_) => Err(DecodeError::Shape),
                    None => Err(DecodeError::Shape),
                },
            }
        },
    }
}

/// Decodes one wire line: parse as generic JSON, then classify.
pub fn decode_message(line: &str) -> (r: Result<Message, DecodeError>)
    ensures
        decode_result_matches(spec_decode(line@), r),
{
    match from_text(line) {
        None => Err(DecodeError::Json),
        Some(v) => classify_x(&v),
    }
}

// ---------------------------------------------------------------------------
// Round trip: decoding an encoded message gives it back
// ---------------------------------------------------------------------------

/// A `params` or `data` field that survives encoding: `Some(null)` would be
/// written as `null` and read back as absent, so it is not well-formed.
pub open spec fn params_valid(p: Option<JsonV>) -> bool {
    match p {
        Option::None => true,
        Option::Some(v) => v != JsonV::Null && json_valid(v),
    }
}

pub open spec fn request_wf(r: RequestV) -> bool {
    match r.id {
        IDV::Number(_) => params_valid(r.params),
        IDV::String(_) => params_valid(r.params),
    }
}

pub open spec fn notification_wf(n: NotificationV) -> bool {
    params_valid(n.params)
}

pub open spec fn response_wf(r: ResponseV) -> bool {
    match r {
        ResponseV::Success { result, .. } => json_valid(result),
        ResponseV::Error { error, .. } => params_valid(error.data),
    }
}

/// A message whose encoding is lossless.
pub open spec fn message_wf(m: MessageV) -> bool {
    match m {
        MessageV::Request(r) => request_wf(r),
        MessageV::Notification(n) => notification_wf(n),
        MessageV::Response(r) => response_wf(r),
    }
}

/// The field names are pairwise distinct.
proof fn key_distinct()
    ensures
        jsonrpc_key() != method_key(),
        jsonrpc_key() != params_key(),
        jsonrpc_key() != id_key(),
        jsonrpc_key() != result_key(),
        jsonrpc_key() != error_key(),
        method_key() != params_key(),
        method_key() != id_key(),
        method_key() != result_key(),
        method_key() != error_key(),
        params_key() != id_key(),
        result_key() != id_key(),
        error_key() != id_key(),
        error_key() != result_key(),
        code_key() != message_key(),
        code_key() != data_key(),
        message_key() != data_key(),
{
    assert(jsonrpc_key()[0] == 'j' && method_key()[0] == 'm' && params_key()[0] == 'p'
        && result_key()[0] == 'r' && error_key()[0] == 'e' && id_key()[0] == 'i' && code_key()[0]
        == 'c' && message_key()[0] == 'm' && data_key()[0] == 'd');
    assert(jsonrpc_key().len() == 7 && method_key().len() == 6 && params_key().len() == 6
        && id_key().len() == 2 && result_key().len() == 6 && error_key().len() == 5
        && code_key().len() == 4 && message_key().len() == 7 && data_key().len() == 4);
}

proof fn lemma_classify_request(r: RequestV)
    requires
        request_wf(r),
    ensures
        classify(request_json(r)) == Result::<MessageV, DecodeError>::Ok(MessageV::Request(r)),
{
    key_distinct();
    reveal_with_fuel(lookup, 6);
    let a = (jsonrpc_key(), version_json());
    let b = (method_key(), JsonV::Str(r.method));
    let c = (params_key(), opt_json(r.params));
    let d = (id_key(), id_json(r.id));
    let ms = seq![a, b, c, d];
    assert(ms.drop_last() =~= seq![a, b, c]);
    assert(seq![a, b, c].drop_last() =~= seq![a, b]);
    assert(seq![a, b].drop_last() =~= seq![a]);
    assert(lookup(ms, id_key()) == Option::Some(id_json(r.id)));
    assert(lookup(ms, params_key()) == Option::Some(opt_json(r.params)));
    assert(lookup(ms, method_key()) == Option::Some(JsonV::Str(r.method)));
    assert(lookup(ms, jsonrpc_key()) == Option::Some(version_json()));
    assert(flatten_null(Option::Some(opt_json(r.params))) == r.params);
    assert(id_of_json(id_json(r.id)) == Option::Some(r.id));
    assert(RequestV { method: r.method, params: r.params, id: r.id } == r);
}

proof fn lemma_classify_notification(n: NotificationV)
    requires
        notification_wf(n),
    ensures
        classify(notification_json(n)) == Result::<MessageV, DecodeError>::Ok(MessageV::Notification(n)),
{
    key_distinct();
    reveal_with_fuel(lookup, 6);
    let a = (jsonrpc_key(), version_json());
    let b = (method_key(), JsonV::Str(n.method));
    let c = (params_key(), opt_json(n.params));
    let ms = seq![a, b, c];
    assert(ms.drop_last() =~= seq![a, b]);
    assert(seq![a, b].drop_last() =~= seq![a]);
    assert(seq![a].drop_last() =~= Seq::<(Seq<char>, JsonV)>::empty());
    assert(lookup(ms, id_key()) is None);
    assert(lookup(ms, params_key()) == Option::Some(opt_json(n.params)));
    assert(lookup(ms, method_key()) == Option::Some(JsonV::Str(n.method)));
    assert(lookup(ms, jsonrpc_key()) == Option::Some(version_json()));
    assert(flatten_null(Option::Some(opt_json(n.params))) == n.params);
    assert(NotificationV { method: n.method, params: n.params } == n);
}

proof fn lemma_classify_response(r: ResponseV)
    requires
        response_wf(r),
    ensures
        classify(response_json(r)) == Result::<MessageV, DecodeError>::Ok(MessageV::Response(r)),
{
    key_distinct();
    reveal_with_fuel(lookup, 6);
    let a = (jsonrpc_key(), version_json());
    match r {
        ResponseV::Success { result, id } => {
            let b = (result_key(), result);
            let d = (id_key(), id_json(id));
            let ms = seq![a, b, d];
            assert(ms.drop_last() =~= seq![a, b]);
            assert(seq![a, b].drop_last() =~= seq![a]);
            assert(seq![a].drop_last() =~= Seq::<(Seq<char>, JsonV)>::empty());
            assert(lookup(ms, jsonrpc_key()) == Option::Some(version_json()));
            assert(lookup(ms, method_key()) is None);
            assert(lookup(ms, id_key()) == Option::Some(id_json(id)));
            assert(lookup(ms, result_key()) == Option::Some(result));
            assert(id_of_json(id_json(id)) == Option::Some(id));
        },
        ResponseV::Error { error, id } => {
            let b = (error_key(), rpc_error_json(error));
            let d = (id_key(), id_json(id));
            let ms = seq![a, b, d];
            assert(ms.drop_last() =~= seq![a, b]);
            assert(seq![a, b].drop_last() =~= seq![a]);
            assert(seq![a].drop_last() =~= Seq::<(Seq<char>, JsonV)>::empty());
            assert(lookup(ms, jsonrpc_key()) == Option::Some(version_json()));
            assert(lookup(ms, method_key()) is None);
            assert(lookup(ms, id_key()) == Option::Some(id_json(id)));
            assert(lookup(ms, result_key()) is None);
            assert(lookup(ms, error_key()) == Option::Some(rpc_error_json(error)));
            assert(id_of_json(id_json(id)) == Option::Some(id));
            let ce = (code_key(), JsonV::Int(error.code as i64));
            let me = (message_key(), JsonV::Str(error.message));
            let de = (data_key(), opt_json(error.data));
            let em = seq![ce, me, de];
            assert(em.drop_last() =~= seq![ce, me]);
            assert(seq![ce, me].drop_last() =~= seq![ce]);
            assert(lookup(em, data_key()) == Option::Some(opt_json(error.data)));
            assert(lookup(em, message_key()) == Option::Some(JsonV::Str(error.message)));
            assert(lookup(em, code_key()) == Option::Some(JsonV::Int(error.code as i64)));
            assert(flatten_null(Option::Some(opt_json(error.data))) == error.data);
            assert(classify_error(em) == Option::Some(
                RpcErrorV { code: error.code, message: error.message, data: error.data },
            ));
            assert(RpcErrorV { code: error.code, message: error.message, data: error.data }
                == error);
        },
    }
}

/// A well-formed message encodes into a valid JSON value.
proof fn lemma_message_json_valid(m: MessageV)
    requires
        message_wf(m),
    ensures
        json_valid(message_json(m)),
{
    match m {
        MessageV::Request(r) => {
            let ms = seq![
                (jsonrpc_key(), version_json()),
                (method_key(), JsonV::Str(r.method)),
                (params_key(), opt_json(r.params)),
                (id_key(), id_json(r.id)),
            ];
            assert forall|k: int| 0 <= k < ms.len() implies json_valid(#[trigger] ms[k].1) by {
                if k == 3 {
                    match r.id {
                        IDV::Number(_) => {},
                        IDV::String(_) => {},
                    }
                }
            }
        },
        MessageV::Notification(n) => {
            let ms = seq![
                (jsonrpc_key(), version_json()),
                (method_key(), JsonV::Str(n.method)),
                (params_key(), opt_json(n.params)),
            ];
            assert forall|k: int| 0 <= k < ms.len() implies json_valid(#[trigger] ms[k].1) by {}
        },
        MessageV::Response(r) => {
            match r {
                ResponseV::Success { result, id } => {
                    let ms = seq![
                        (jsonrpc_key(), version_json()),
                        (result_key(), result),
                        (id_key(), id_json(id)),
                    ];
                    assert forall|k: int| 0 <= k < ms.len() implies json_valid(
                        #[trigger] ms[k].1,
                    ) by {
                        if k == 2 {
                            match id {
                                IDV::Number(_) => {},
                                IDV::String(_) => {},
                            }
                        }
                    }
                },
                ResponseV::Error { error, id } => {
                    let em = seq![
                        (code_key(), JsonV::Int(error.code as i64)),
                        (message_key(), JsonV::Str(error.message)),
                        (data_key(), opt_json(error.data)),
                    ];
                    assert forall|k: int| 0 <= k < em.len() implies json_valid(
                        #[trigger] em[k].1,
                    ) by {}
                    let ms = seq![
                        (jsonrpc_key(), version_json()),
                        (error_key(), rpc_error_json(error)),
                        (id_key(), id_json(id)),
                    ];
                    assert forall|k: int| 0 <= k < ms.len() implies json_valid(
                        #[trigger] ms[k].1,
                    ) by {
                        if k == 2 {
                            match id {
                                IDV::Number(_) => {},
                                IDV::String(_) => {},
                            }
                        }
                    }
                },
            }
        },
    }
}

/// Round trip of the wire protocol: decoding the encoded text of any
/// well-formed message yields exactly that message.  This covers both ID
/// variants, absent and present parameters, and all four message shapes.
pub proof fn lemma_decode_encode(m: MessageV)
    requires
        message_wf(m),
    ensures
        spec_decode(ser(message_json(m))) == Result::<MessageV, DecodeError>::Ok(m),
{
    lemma_message_json_valid(m);
    crate::json::lemma_text_round_trip(message_json(m));
    match m {
        MessageV::Request(r) => lemma_classify_request(r),
        MessageV::Notification(n) => lemma_classify_notification(n),
        MessageV::Response(r) => lemma_classify_response(r),
    }
}

} // verus!
