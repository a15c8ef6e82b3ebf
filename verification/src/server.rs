//! The server dispatch core: one global FIFO queue of pending calls and one
//! topic-to-subscribers registry, shared by every connection.
//!
//! Each incoming message is classified here.  The control methods
//! `subscribe` and `unsubscribe` edit the registry and are acknowledged at
//! once, never touching the queue.  Every other method is wrapped into a
//! [`PendingRequest`] — the original message plus the reply handle of the
//! connection it came from — and pushed to the back of the queue.  The host
//! drains the queue strictly front to back through [`Server::try_next`],
//! so all side-effecting calls reach it in one total order consistent with
//! arrival.  Broadcasts fan out to every subscriber of the named topic and
//! of the reserved wildcard topic; the transport around this core performs
//! the sends and prunes a subscriber whose delivery fails.

use std::collections::VecDeque;

use vstd::prelude::*;

use crate::json::{str_eq, Json, JsonV};
use crate::protocol::{
    lookup, opt_json_view, Notification, NotificationV, Request, RequestV, Response, ResponseV,
    RpcError, RpcErrorV, Version, IDV,
};

verus! {

/// A message a client can send to the server: a Request or a Notification.
pub enum Incoming {
    Request(Request),
    Notification(Notification),
}

#[verifier::ext_equal]
pub enum IncomingV {
    Request(RequestV),
    Notification(NotificationV),
}

impl View for Incoming {
    type V = IncomingV;

    open spec fn view(&self) -> IncomingV {
        match self {
            Incoming::Request(r) => IncomingV::Request(r@),
            Incoming::Notification(n) => IncomingV::Notification(n@),
        }
    }
}

impl DeepView for Incoming {
    type V = IncomingV;

    open spec fn deep_view(&self) -> IncomingV {
        self.view()
    }
}

/// A message the server sends to a client: a Response to one of its calls,
/// or a Notification fanned out from a broadcast.
pub enum Outgoing {
    Notification(Notification),
    Response(Response),
}

#[verifier::ext_equal]
pub enum OutgoingV {
    Notification(NotificationV),
    Response(ResponseV),
}

impl View for Outgoing {
    type V = OutgoingV;

    open spec fn view(&self) -> OutgoingV {
        match self {
            Outgoing::Notification(n) => OutgoingV::Notification(n@),
            Outgoing::Response(r) => OutgoingV::Response(r@),
        }
    }
}

pub open spec fn incoming_method(m: IncomingV) -> Seq<char> {
    match m {
        IncomingV::Request(r) => r.method,
        IncomingV::Notification(n) => n.method,
    }
}

pub open spec fn incoming_params(m: IncomingV) -> Option<JsonV> {
    match m {
        IncomingV::Request(r) => r.params,
        IncomingV::Notification(n) => n.params,
    }
}

impl Incoming {
    /// The protocol version of the message; always the fixed tag.
    pub fn jsonrpc(&self) -> (r: Version)
        ensures
            r == match self {
                Incoming::Request(req) => req.jsonrpc,
                Incoming::Notification(n) => n.jsonrpc,
            },
    {
        match self {
            Incoming::Request(req) => req.jsonrpc,
            Incoming::Notification(n) => n.jsonrpc,
        }
    }

    /// The method name of the message.
    pub fn method(&self) -> (r: &str)
        ensures
            r@ == incoming_method(self@),
    {
        match self {
            Incoming::Request(req) => req.method.as_str(),
            Incoming::Notification(n) => n.method.as_str(),
        }
    }

    /// Takes the parameters out of the message, leaving none behind.
    pub fn take_params(&mut self) -> (r: Option<Json>)
        ensures
            opt_json_view(r) == incoming_params(old(self)@),
            incoming_method(final(self)@) == incoming_method(old(self)@),
            incoming_params(final(self)@) == Option::<JsonV>::None,
            final(self)@ is Request <==> old(self)@ is Request,
            final(self)@ is Request ==> final(self)@->Request_0.id == old(self)@->Request_0.id,
    {
        match self {
            Incoming::Request(req) => req.params.take(),
            Incoming::Notification(n) => n.params.take(),
        }
    }
}

/// A call held for the host: the original message plus a handle that routes
/// exactly one Response back to the originating connection.  Consuming the
/// call through [`PendingRequest::success`] or [`PendingRequest::error`]
/// uses the handle up.
pub struct PendingRequest {
    pub req: Incoming,
    /// The originating connection, standing for its outbound writer.
    pub conn: u64,
}

#[verifier::ext_equal]
pub struct PendingRequestV {
    pub req: IncomingV,
    pub conn: u64,
}

impl View for PendingRequest {
    type V = PendingRequestV;

    open spec fn view(&self) -> PendingRequestV {
        PendingRequestV { req: self.req@, conn: self.conn }
    }
}

impl DeepView for PendingRequest {
    type V = PendingRequestV;

    open spec fn deep_view(&self) -> PendingRequestV {
        self.view()
    }
}

/// One registry entry: broadcasts on `topic` are delivered to `conn`.
pub struct Subscription {
    pub topic: String,
    pub conn: u64,
}

#[verifier::ext_equal]
pub struct SubscriptionV {
    pub topic: Seq<char>,
    pub conn: u64,
}

impl View for Subscription {
    type V = SubscriptionV;

    open spec fn view(&self) -> SubscriptionV {
        SubscriptionV { topic: self.topic@, conn: self.conn }
    }
}

impl DeepView for Subscription {
    type V = SubscriptionV;

    open spec fn deep_view(&self) -> SubscriptionV {
        self.view()
    }
}

/// The reserved topic that receives every broadcast.
pub open spec fn wildcard() -> Seq<char> {
    seq!['*']
}

pub open spec fn subscribe_method() -> Seq<char> {
    seq!['s', 'u', 'b', 's', 'c', 'r', 'i', 'b', 'e']
}

pub open spec fn unsubscribe_method() -> Seq<char> {
    seq!['u', 'n', 's', 'u', 'b', 's', 'c', 'r', 'i', 'b', 'e']
}

/// The two control methods the dispatch core handles itself.
pub open spec fn is_control_method(m: Seq<char>) -> bool {
    m == subscribe_method() || m == unsubscribe_method()
}

pub open spec fn name_key() -> Seq<char> {
    seq!['n', 'a', 'm', 'e']
}

/// The topic a subscribe or unsubscribe call names: absent parameters mean
/// the wildcard topic; otherwise the parameters must be an object whose
/// `name` field is a string, and anything else is a parameter error.
pub open spec fn control_topic(params: Option<JsonV>) -> Option<Seq<char>> {
    match params {
        Option::None => Option::Some(wildcard()),
        Option::Some(p) => match p {
            JsonV::Obj(m) => match lookup(m, name_key()) {
                Option::Some(JsonV::Str(t)) => Option::Some(t),
                _ => Option::None,
            },
            _ => Option::None,
        },
    }
}

/// Registering a subscription appends it to the registry.
pub open spec fn subscribe_t(subs: Seq<SubscriptionV>, topic: Seq<char>, conn: u64) -> Seq<
    SubscriptionV,
> {
    subs.push(SubscriptionV { topic, conn })
}

/// Unsubscribing removes this connection's entries under the topic and
/// keeps everything else, in order.
pub open spec fn unsubscribe_t(subs: Seq<SubscriptionV>, topic: Seq<char>, conn: u64) -> Seq<
    SubscriptionV,
>
    decreases subs.len(),
{
    if subs.len() == 0 {
        Seq::empty()
    } else {
        let rest = unsubscribe_t(subs.drop_last(), topic, conn);
        if subs.last().topic == topic && subs.last().conn == conn {
            rest
        } else {
            rest.push(subs.last())
        }
    }
}

/// The connections subscribed to `topic`, in registration order.
pub open spec fn conns_for(subs: Seq<SubscriptionV>, topic: Seq<char>) -> Seq<u64>
    decreases subs.len(),
{
    if subs.len() == 0 {
        Seq::empty()
    } else {
        let rest = conns_for(subs.drop_last(), topic);
        if subs.last().topic == topic {
            rest.push(subs.last().conn)
        } else {
            rest
        }
    }
}

/// Where one broadcast on `topic` is attempted: every subscriber of the
/// topic, then every subscriber of the wildcard topic.
pub open spec fn broadcast_conns(subs: Seq<SubscriptionV>, topic: Seq<char>) -> Seq<u64> {
    conns_for(subs, topic) + conns_for(subs, wildcard())
}

/// The acknowledgement sent for a well-formed control Request.
pub open spec fn ok_ack(id: IDV) -> ResponseV {
    ResponseV::Success { result: JsonV::Str(seq!['o', 'k']), id }
}

/// The reply sent for a control Request with unreadable parameters.
pub open spec fn bad_params_reply(id: IDV) -> ResponseV {
    ResponseV::Error {
        error: RpcErrorV {
            code: 1,
            message: invalid_params_message(),
            data: Option::None,
        },
        id,
    }
}

pub open spec fn invalid_params_message() -> Seq<char> {
    seq![
        'I', 'n', 'v', 'a', 'l', 'i', 'd', ' ', 's', 'u', 'b', 's', 'c', 'r', 'i', 'b', 'e', '/',
        'u', 'n', 's', 'u', 'b', 's', 'c', 'r', 'i', 'b', 'e', ' ', 'p', 'a', 'r', 'a', 'm', 's',
    ]
}

/// How a response to a finished call is built: a Request is answered on its
/// own connection under its own ID; a Notification has no reply handle and
/// is never answered.
pub open spec fn success_reply(p: PendingRequestV, result: JsonV) -> Option<(u64, ResponseV)> {
    match p.req {
        IncomingV::Request(r) => Option::Some(
            (p.conn, ResponseV::Success { result, id: r.id }),
        ),
        IncomingV::Notification(_) => Option::None,
    }
}

pub open spec fn error_reply(p: PendingRequestV, message: Seq<char>) -> Option<(u64, ResponseV)> {
    match p.req {
        IncomingV::Request(r) => Option::Some(
            (
                p.conn,
                ResponseV::Error {
                    error: RpcErrorV { code: 1, message, data: Option::None },
                    id: r.id,
                },
            ),
        ),
        IncomingV::Notification(_) => Option::None,
    }
}

impl PendingRequest {
    /// Answers the call with a result.  Relies on nothing outside: the
    /// Response and its destination are handed back for the transport to
    /// send.  A Notification yields nothing — it never gets a Response.
    pub fn success(self, result: Json) -> (r: Option<(u64, Response)>)
        ensures
            match (success_reply(self@, result@), r) {
                (Option::None, Option::None) => true,
                (Option::Some((cs, rs)), Option::Some((ce, re))) => ce == cs && re@ == rs,
                _ => false,
            },
    {
        match self.req {
            Incoming::Request(req) => Some(
                (
                    self.conn,
                    Response::Success { jsonrpc: Version::V2, result, id: req.id },
                ),
            ),
            Incoming::Notification(_) => None,
        }
    }

    /// Answers the call with an application error.
    pub fn error(self, message: String) -> (r: Option<(u64, Response)>)
        ensures
            match (error_reply(self@, message@), r) {
                (Option::None, Option::None) => true,
                (Option::Some((cs, rs)), Option::Some((ce, re))) => ce == cs && re@ == rs,
                _ => false,
            },
    {
        match self.req {
            Incoming::Request(req) => Some(
                (
                    self.conn,
                    Response::Error {
                        jsonrpc: Version::V2,
                        error: RpcError { code: 1, message, data: None },
                        id: req.id,
                    },
                ),
            ),
            Incoming::Notification(_) => None,
        }
    }
}

/// What the host hands back for one drained call.
pub enum Outcome {
    Success(Json),
    Error(String),
}

/// Notifications never produce a Response: a pending call that carries a
/// Notification has no reply handle, so neither a result nor an error for
/// it ever yields anything to send.
pub proof fn lemma_notification_never_answered(
    p: PendingRequestV,
    result: JsonV,
    message: Seq<char>,
)
    requires
        p.req is Notification,
    ensures
        success_reply(p, result) is None,
        error_reply(p, message) is None,
{
}

/// The dispatch core itself: the global FIFO queue and the subscription
/// registry.  The transport layer owns the lock around it; every operation
/// here holds it for a single queue or registry edit.
pub struct Server {
    pub queue: VecDeque<PendingRequest>,
    pub subscriptions: Vec<Subscription>,
}

fn opt_clone(p: &Option<Json>) -> (r: Option<Json>)
    ensures
        opt_json_view(r) == opt_json_view(*p),
{
    match p {
        Option::None => None,
        Option::Some(j) => Some(j.deep_clone()),
    }
}

impl Server {
    /// The pending calls, front of the queue first.
    pub open spec fn queue_v(&self) -> Seq<PendingRequestV> {
        self.queue.deep_view()
    }

    /// The live subscriptions, in registration order.
    pub open spec fn subs_v(&self) -> Seq<SubscriptionV> {
        self.subscriptions.deep_view()
    }

    /// A fresh core: nothing queued, nobody subscribed.
    pub fn new() -> (s: Server)
        ensures
            s.queue_v() == Seq::<PendingRequestV>::empty(),
            s.subs_v() == Seq::<SubscriptionV>::empty(),
    {
        let s = Server { queue: VecDeque::new(), subscriptions: Vec::new() };
        proof {
            assert(s.queue_v() =~= Seq::<PendingRequestV>::empty());
            assert(s.subs_v() =~= Seq::<SubscriptionV>::empty());
        }
        s
    }

    /// Classifies one message from connection `conn` as [`handle_spec`]
    /// says: control methods edit the registry and are acknowledged at
    /// once; everything else joins the back of the queue for the host.
    #[verifier::loop_isolation(false)]
    pub fn handle_incoming(&mut self, conn: u64, msg: Incoming) -> (reply: Option<Response>)
        ensures
            ({
                let (q2, s2, r2) = handle_spec(
                    old(self).queue_v(),
                    old(self).subs_v(),
                    conn,
                    msg@,
                );
                &&& final(self).queue_v() == q2
                &&& final(self).subs_v() == s2
                &&& match (r2, reply) {
                    (Option::None, Option::None) => true,
                    (Option::Some(rv), Option::Some(re)) => re@ == rv,
                    _ => false,
                }
            }),
    {
        proof {
            reveal_strlit("subscribe");
            reveal_strlit("unsubscribe");
            assert("subscribe"@ =~= subscribe_method());
            assert("unsubscribe"@ =~= unsubscribe_method());
        }
        let is_sub = str_eq(msg.method(), "subscribe");
        let is_unsub = str_eq(msg.method(), "unsubscribe");
        if !(is_sub || is_unsub) {
            let ghost oldq = self.queue_v();
            self.queue.push_back(PendingRequest { req: msg, conn });
            proof {
                assert(self.queue_v() =~= oldq.push(PendingRequestV { req: msg@, conn }));
            }
            return None;
        }
        let params_ref: &Option<Json> = match &msg {
            Incoming::Request(r) => &r.params,
            Incoming::Notification(n) => &n.params,
        };
        let topic: Option<String> = match params_ref {
            Option::None => {
                let star = String::from_str("*");
                proof {
                    reveal_strlit("*");
                    assert(star@ =~= wildcard());
                }
                Some(star)
            },
            Option::Some(Json::Obj(m)) => {
                proof {
                    reveal_strlit("name");
                    assert("name"@ =~= name_key());
                }
                match crate::protocol::lookup_x(m, "name") {
                    Option::Some(Json::Str(t)) => Some(t.clone()),
                    _ => None,
                }
            },
            Option::Some(_) => None,
        };
        match topic {
            Option::None => {
                let message = String::from_str("Invalid subscribe/unsubscribe params");
                proof {
                    reveal_strlit("Invalid subscribe/unsubscribe params");
                    assert(message@ =~= invalid_params_message());
                }
                match msg {
                    Incoming::Request(r) => Some(
                        Response::Error {
                            jsonrpc: Version::V2,
                            error: RpcError { code: 1, message, data: None },
                            id: r.id,
                        },
                    ),
                    Incoming::Notification(_) => None,
                }
            },
            Option::Some(t) => {
                if is_sub {
                    let ghost olds = self.subs_v();
                    let ghost tv = t@;
                    self.subscriptions.push(Subscription { topic: t, conn });
                    proof {
                        assert(self.subs_v() =~= subscribe_t(olds, tv, conn));
                    }
                } else {
                    let ghost olds = self.subs_v();
                    let mut kept: Vec<Subscription> = Vec::new();
                    let mut k: usize = 0;
                    while k < self.subscriptions.len()
                        invariant
                            k <= self.subscriptions@.len(),
                            self.subs_v() == olds,
                            kept.deep_view() == unsubscribe_t(olds.take(k as int), t@, conn),
                        decreases self.subscriptions@.len() - k,
                    {
                        let ghost oldkept = kept.deep_view();
                        let s = &self.subscriptions[k];
                        let matches_entry = str_eq(s.topic.as_str(), t.as_str()) && s.conn
                            == conn;
                        if !matches_entry {
                            kept.push(
                                Subscription { topic: s.topic.clone(), conn: s.conn },
                            );
                            proof {
                                assert(kept.deep_view() =~= oldkept.push(
                                    olds[k as int],
                                ));
                            }
                        }
                        proof {
                            assert(olds.take(k + 1 as int).drop_last() =~= olds.take(
                                k as int,
                            ));
                            assert(olds.take(k + 1 as int).last() == olds[k as int]);
                        }
                        k += 1;
                    }
                    self.subscriptions = kept;
                    proof {
                        assert(olds.take(olds.len() as int) =~= olds);
                    }
                }
                match msg {
                    Incoming::Request(r) => {
                        let okv = String::from_str("ok");
                        proof {
                            reveal_strlit("ok");
                            assert(okv@ =~= seq!['o', 'k']);
                        }
                        Some(
                            Response::Success {
                                jsonrpc: Version::V2,
                                result: Json::Str(okv),
                                id: r.id,
                            },
                        )
                    },
                    Incoming::Notification(_) => None,
                }
            },
        }
    }

    /// Hands the host the front of the queue, without ever blocking: the
    /// oldest pending call if one is there, nothing otherwise.  The
    /// subscription registry is untouched either way.
    pub fn try_next(&mut self) -> (r: Option<PendingRequest>)
        ensures
            final(self).subs_v() == old(self).subs_v(),
            old(self).queue_v().len() == 0 ==> r is None && final(self).queue_v() == old(
                self,
            ).queue_v(),
            old(self).queue_v().len() > 0 ==> match r {
                Option::Some(p) => p@ == old(self).queue_v()[0] && final(self).queue_v() == old(
                    self,
                ).queue_v().drop_first(),
                Option::None => false,
            },
    {
        let r = self.queue.pop_front();
        proof {
            if old(self).queue_v().len() == 0 {
                assert(self.queue_v() =~= old(self).queue_v());
            } else {
                assert(self.queue_v() =~= old(self).queue_v().drop_first());
            }
        }
        r
    }

    /// Delivers `outcome` for a drained call: the Response to send and the
    /// connection to send it on, or nothing when the call was a
    /// Notification.
    pub fn complete(pending: PendingRequest, outcome: Outcome) -> (r: Option<(u64, Response)>)
        ensures
            match outcome {
                Outcome::Success(result) => match (success_reply(pending@, result@), r) {
                    (Option::None, Option::None) => true,
                    (Option::Some((cs, rs)), Option::Some((ce, re))) => ce == cs && re@ == rs,
                    _ => false,
                },
                Outcome::Error(message) => match (error_reply(pending@, message@), r) {
                    (Option::None, Option::None) => true,
                    (Option::Some((cs, rs)), Option::Some((ce, re))) => ce == cs && re@ == rs,
                    _ => false,
                },
            },
    {
        match outcome {
            Outcome::Success(result) => pending.success(result),
            Outcome::Error(message) => pending.error(message),
        }
    }

    /// Plans one broadcast: a Notification carrying `channel` as its method
    /// and `params` as its payload, addressed to every subscriber of
    /// `channel` and every subscriber of the wildcard topic, in
    /// registration order.  The transport attempts each delivery and prunes
    /// a subscriber it cannot reach, so delivery is at-most-once.
    #[verifier::loop_isolation(false)]
    pub fn broadcast(&self, channel: &str, params: &Option<Json>) -> (out: Vec<
        (u64, Notification),
    >)
        ensures
            out@.len() == broadcast_conns(self.subs_v(), channel@).len(),
            forall|k: int|
                0 <= k < out@.len() ==> (#[trigger] out@[k]).0 == broadcast_conns(
                    self.subs_v(),
                    channel@,
                )[k] && out@[k].1@ == (NotificationV {
                    method: channel@,
                    params: opt_json_view(*params),
                }),
    {
        let mut out: Vec<(u64, Notification)> = Vec::new();
        self.collect_targets(channel, channel, params, &mut out);
        let star = String::from_str("*");
        proof {
            reveal_strlit("*");
            assert(star@ =~= wildcard());
        }
        self.collect_targets(star.as_str(), channel, params, &mut out);
        proof {
            let a = conns_for(self.subs_v(), channel@);
            let b = conns_for(self.subs_v(), wildcard());
            assert forall|k: int| 0 <= k < out@.len() implies (#[trigger] out@[k]).0 == (a + b)[k]
                && out@[k].1@ == (NotificationV {
                method: channel@,
                params: opt_json_view(*params),
            }) by {
                if k < a.len() {
                    assert((a + b)[k] == a[k]);
                } else {
                    assert((a + b)[k] == b[k - a.len()]);
                }
            }
        }
        out
    }

    /// Appends one fan-out pass: the subscribers of `topic`, each paired
    /// with a fresh Notification for `channel`.
    #[verifier::loop_isolation(false)]
    fn collect_targets(
        &self,
        topic: &str,
        channel: &str,
        params: &Option<Json>,
        out: &mut Vec<(u64, Notification)>,
    )
        ensures
            final(out)@.len() == old(out)@.len() + conns_for(self.subs_v(), topic@).len(),
            forall|k: int| 0 <= k < old(out)@.len() ==> (#[trigger] final(out)@[k]) == old(out)@[k],
            forall|k: int|
                old(out)@.len() <= k < final(out)@.len() ==> (#[trigger] final(out)@[k]).0
                    == conns_for(self.subs_v(), topic@)[k - old(out)@.len()] && final(out)@[k].1@
                    == (NotificationV { method: channel@, params: opt_json_view(*params) }),
    {
        let ghost base = out@;
        let ghost subs = self.subs_v();
        let mut k: usize = 0;
        while k < self.subscriptions.len()
            invariant
                k <= self.subscriptions@.len(),
                out@.len() == base.len() + conns_for(subs.take(k as int), topic@).len(),
                forall|j: int| 0 <= j < base.len() ==> (#[trigger] out@[j]) == base[j],
                forall|j: int|
                    base.len() <= j < out@.len() ==> (#[trigger] out@[j]).0 == conns_for(
                        subs.take(k as int),
                        topic@,
                    )[j - base.len()] && out@[j].1@ == (NotificationV {
                        method: channel@,
                        params: opt_json_view(*params),
                    }),
            decreases self.subscriptions@.len() - k,
        {
            let s = &self.subscriptions[k];
            proof {
                assert(subs.take(k + 1 as int).drop_last() =~= subs.take(k as int));
                assert(subs.take(k + 1 as int).last() == subs[k as int]);
            }
            if str_eq(s.topic.as_str(), topic) {
                let n = Notification {
                    jsonrpc: Version::V2,
                    method: String::from_str(channel),
                    params: opt_clone(params),
                };
                out.push((s.conn, n));
            }
            k += 1;
        }
        proof {
            assert(subs.take(subs.len() as int) =~= subs);
        }
    }

    /// Lazily prunes a subscriber whose delivery failed (a full buffer or a
    /// closed connection): all of that connection's subscriptions go.
    #[verifier::loop_isolation(false)]
    pub fn remove_subscriber(&mut self, conn: u64)
        ensures
            final(self).queue_v() == old(self).queue_v(),
            final(self).subs_v() == old(self).subs_v().filter(
                |s: SubscriptionV| s.conn != conn,
            ),
    {
        let ghost olds = self.subs_v();
        let mut kept: Vec<Subscription> = Vec::new();
        let mut k: usize = 0;
        while k < self.subscriptions.len()
            invariant
                k <= self.subscriptions@.len(),
                self.subs_v() == olds,
                self.queue_v() == old(self).queue_v(),
                kept.deep_view() == olds.take(k as int).filter(
                    |s: SubscriptionV| s.conn != conn,
                ),
            decreases self.subscriptions@.len() - k,
        {
            let ghost oldkept = kept.deep_view();
            let s = &self.subscriptions[k];
            if s.conn != conn {
                kept.push(Subscription { topic: s.topic.clone(), conn: s.conn });
                proof {
                    assert(kept.deep_view() =~= oldkept.push(olds[k as int]));
                }
            }
            proof {
                reveal(Seq::filter);
                assert(olds.take(k + 1 as int).drop_last() =~= olds.take(k as int));
                assert(olds.take(k + 1 as int).last() == olds[k as int]);
            }
            k += 1;
        }
        self.subscriptions = kept;
        proof {
            assert(olds.take(olds.len() as int) =~= olds);
        }
    }
}

// ---------------------------------------------------------------------------
// Laws of the dispatch core
// ---------------------------------------------------------------------------

/// How often `conn` occurs among delivery targets.
pub open spec fn count_of(s: Seq<u64>, x: u64) -> nat
    decreases s.len(),
{
    if s.len() == 0 {
        0
    } else {
        count_of(s.drop_last(), x) + if s.last() == x {
            1nat
        } else {
            0
        }
    }
}

pub proof fn lemma_count_of_add(a: Seq<u64>, b: Seq<u64>, x: u64)
    ensures
        count_of(a + b, x) == count_of(a, x) + count_of(b, x),
    decreases b.len(),
{
    if b.len() == 0 {
        assert(a + b =~= a);
    } else {
        lemma_count_of_add(a, b.drop_last(), x);
        assert((a + b).drop_last() =~= a + b.drop_last());
        assert((a + b).last() == b.last());
    }
}

/// A connection not subscribed under a topic is never a target of that
/// topic's fan-out pass.
proof fn lemma_not_subscribed_no_targets(subs: Seq<SubscriptionV>, topic: Seq<char>, conn: u64)
    requires
        forall|k: int|
            0 <= k < subs.len() ==> !((#[trigger] subs[k]).conn == conn && subs[k].topic
                == topic),
    ensures
        count_of(conns_for(subs, topic), conn) == 0,
    decreases subs.len(),
{
    if subs.len() > 0 {
        lemma_not_subscribed_no_targets(subs.drop_last(), topic, conn);
        let rest = conns_for(subs.drop_last(), topic);
        if subs.last().topic == topic {
            assert(subs[subs.len() - 1].conn != conn);
            assert(rest.push(subs.last().conn).drop_last() =~= rest);
            assert(rest.push(subs.last().conn).last() == subs.last().conn);
        }
    }
}

/// Subscribing to a topic, then broadcasting on it, reaches the new
/// subscriber exactly once — provided it was not already under that topic
/// or under the wildcard, which would each add one more delivery.
pub proof fn lemma_subscribe_then_broadcast(subs: Seq<SubscriptionV>, topic: Seq<char>, conn: u64)
    requires
        topic != wildcard(),
        forall|k: int|
            0 <= k < subs.len() && (#[trigger] subs[k]).conn == conn ==> subs[k].topic != topic
                && subs[k].topic != wildcard(),
    ensures
        count_of(broadcast_conns(subscribe_t(subs, topic, conn), topic), conn) == 1,
{
    let subs2 = subscribe_t(subs, topic, conn);
    lemma_not_subscribed_no_targets(subs, topic, conn);
    lemma_not_subscribed_no_targets(subs, wildcard(), conn);
    assert(subs2.drop_last() =~= subs);
    assert(conns_for(subs2, topic) == conns_for(subs, topic).push(conn));
    assert(conns_for(subs2, wildcard()) == conns_for(subs, wildcard()));
    assert(count_of(conns_for(subs, topic).push(conn), conn) == 1) by {
        assert(conns_for(subs, topic).push(conn).drop_last() =~= conns_for(subs, topic));
    }
    lemma_count_of_add(conns_for(subs2, topic), conns_for(subs2, wildcard()), conn);
}

/// A broadcast on any other topic delivers nothing to that subscriber,
/// as long as it holds no subscription of its own under that other topic
/// or under the wildcard.
pub proof fn lemma_other_topic_not_delivered(
    subs: Seq<SubscriptionV>,
    topic: Seq<char>,
    conn: u64,
    other: Seq<char>,
)
    requires
        other != topic,
        topic != wildcard(),
        forall|k: int|
            0 <= k < subs.len() && (#[trigger] subs[k]).conn == conn ==> subs[k].topic != other
                && subs[k].topic != wildcard(),
    ensures
        count_of(broadcast_conns(subscribe_t(subs, topic, conn), other), conn) == 0,
{
    let subs2 = subscribe_t(subs, topic, conn);
    assert(subs2.drop_last() =~= subs);
    assert(forall|k: int| 0 <= k < subs.len() ==> subs2[k] == subs[k]);
    lemma_not_subscribed_no_targets(subs2, other, conn);
    lemma_not_subscribed_no_targets(subs2, wildcard(), conn);
    lemma_count_of_add(conns_for(subs2, other), conns_for(subs2, wildcard()), conn);
}

/// After unsubscribing, no entry of that connection under the topic is
/// left, whatever else the registry holds.
proof fn lemma_unsubscribe_removes(subs: Seq<SubscriptionV>, topic: Seq<char>, conn: u64)
    ensures
        forall|k: int|
            0 <= k < unsubscribe_t(subs, topic, conn).len() ==> !((#[trigger] unsubscribe_t(
                subs,
                topic,
                conn,
            )[k]).conn == conn && unsubscribe_t(subs, topic, conn)[k].topic == topic),
    decreases subs.len(),
{
    if subs.len() > 0 {
        lemma_unsubscribe_removes(subs.drop_last(), topic, conn);
        let rest = unsubscribe_t(subs.drop_last(), topic, conn);
        if !(subs.last().topic == topic && subs.last().conn == conn) {
            assert(forall|k: int|
                0 <= k < rest.push(subs.last()).len() ==> !((#[trigger] rest.push(
                    subs.last(),
                )[k]).conn == conn && rest.push(subs.last())[k].topic == topic));
        }
    }
}

/// Every entry the unsubscribe keeps was in the registry.
proof fn lemma_unsubscribe_subset(subs: Seq<SubscriptionV>, topic: Seq<char>, conn: u64)
    ensures
        forall|k: int|
            0 <= k < unsubscribe_t(subs, topic, conn).len() ==> exists|w: int|
                0 <= w < subs.len() && subs[w] == #[trigger] unsubscribe_t(subs, topic, conn)[k],
    decreases subs.len(),
{
    if subs.len() > 0 {
        lemma_unsubscribe_subset(subs.drop_last(), topic, conn);
        let rest = unsubscribe_t(subs.drop_last(), topic, conn);
        let whole = unsubscribe_t(subs, topic, conn);
        assert forall|k: int| 0 <= k < whole.len() implies exists|w: int|
            0 <= w < subs.len() && subs[w] == #[trigger] whole[k] by {
            if !(subs.last().topic == topic && subs.last().conn == conn) && k == rest.len() {
                assert(subs[subs.len() - 1] == whole[k]);
            } else {
                let e = whole[k];
                assert(rest[k] == e);
                let w = choose|w: int| 0 <= w < subs.drop_last().len() && subs.drop_last()[w] == e;
                assert(subs[w] == e);
            }
        }
    }
}

/// After a subscriber unsubscribes from a topic, a broadcast on that topic
/// no longer reaches it at all — unless it also sat under the wildcard,
/// which would still receive it, so that is ruled out (except when the
/// unsubscribed topic is the wildcard itself).
pub proof fn lemma_unsubscribe_stops_delivery(
    subs: Seq<SubscriptionV>,
    topic: Seq<char>,
    conn: u64,
)
    requires
        forall|k: int|
            0 <= k < subs.len() && (#[trigger] subs[k]).conn == conn && subs[k].topic
                == wildcard() ==> topic == wildcard(),
    ensures
        count_of(broadcast_conns(unsubscribe_t(subs, topic, conn), topic), conn) == 0,
{
    let subs2 = unsubscribe_t(subs, topic, conn);
    lemma_unsubscribe_removes(subs, topic, conn);
    lemma_unsubscribe_subset(subs, topic, conn);
    assert forall|k: int|
        0 <= k < subs2.len() implies !((#[trigger] subs2[k]).conn == conn && subs2[k].topic
        == wildcard()) by {
        if subs2[k].conn == conn && subs2[k].topic == wildcard() {
            let w = choose|w: int| 0 <= w < subs.len() && subs[w] == subs2[k];
            assert(topic == wildcard());
        }
    }
    lemma_not_subscribed_no_targets(subs2, topic, conn);
    lemma_not_subscribed_no_targets(subs2, wildcard(), conn);
    lemma_count_of_add(conns_for(subs2, topic), conns_for(subs2, wildcard()), conn);
}

/// A subscriber registered on the wildcard topic is among the targets of
/// every broadcast, whatever its topic.
pub proof fn lemma_wildcard_receives_all(subs: Seq<SubscriptionV>, topic: Seq<char>, conn: u64)
    requires
        exists|k: int|
            0 <= k < subs.len() && #[trigger] subs[k] == (SubscriptionV {
                topic: wildcard(),
                conn,
            }),
    ensures
        broadcast_conns(subs, topic).contains(conn),
{
    lemma_wildcard_target(subs, conn);
    let a = conns_for(subs, topic);
    let b = conns_for(subs, wildcard());
    let j = choose|j: int| 0 <= j < b.len() && b[j] == conn;
    assert((a + b)[a.len() + j] == conn);
}

proof fn lemma_wildcard_target(subs: Seq<SubscriptionV>, conn: u64)
    requires
        exists|k: int|
            0 <= k < subs.len() && #[trigger] subs[k] == (SubscriptionV {
                topic: wildcard(),
                conn,
            }),
    ensures
        conns_for(subs, wildcard()).contains(conn),
    decreases subs.len(),
{
    let k = choose|k: int|
        0 <= k < subs.len() && #[trigger] subs[k] == (SubscriptionV { topic: wildcard(), conn });
    if k == subs.len() - 1 {
        assert(conns_for(subs, wildcard()).last() == conn);
    } else {
        assert(subs.drop_last()[k] == (SubscriptionV { topic: wildcard(), conn }));
        lemma_wildcard_target(subs.drop_last(), conn);
        let rest = conns_for(subs.drop_last(), wildcard());
        let j = choose|j: int| 0 <= j < rest.len() && rest[j] == conn;
        if subs.last().topic == wildcard() {
            assert(conns_for(subs, wildcard())[j] == conn);
        } else {
            assert(conns_for(subs, wildcard())[j] == conn);
        }
    }
}

/// Draining the queue `n` times, front to back.
pub open spec fn drain_t(q: Seq<PendingRequestV>, n: nat) -> Seq<PendingRequestV>
    decreases n,
{
    if n == 0 || q.len() == 0 {
        Seq::empty()
    } else {
        seq![q[0]] + drain_t(q.drop_first(), (n - 1) as nat)
    }
}

/// FIFO total order: with `n` calls enqueued before any drain, the first
/// `n` drains return exactly those calls in arrival order, whatever
/// connections they arrived from.
pub proof fn lemma_fifo_order(q: Seq<PendingRequestV>, n: nat)
    requires
        n <= q.len(),
    ensures
        drain_t(q, n) == q.take(n as int),
    decreases n,
{
    if n == 0 {
        assert(drain_t(q, n) =~= q.take(0));
    } else {
        lemma_fifo_order(q.drop_first(), (n - 1) as nat);
        assert(seq![q[0]] + q.drop_first().take(n - 1 as int) =~= q.take(n as int));
    }
}

/// What handling one incoming message does to the dispatch core and what
/// immediate reply it produces.
pub open spec fn handle_spec(
    queue: Seq<PendingRequestV>,
    subs: Seq<SubscriptionV>,
    conn: u64,
    msg: IncomingV,
) -> (Seq<PendingRequestV>, Seq<SubscriptionV>, Option<ResponseV>) {
    let method = incoming_method(msg);
    if !is_control_method(method) {
        // any other method is the host's business: enqueue, answer later
        (queue.push(PendingRequestV { req: msg, conn }), subs, Option::None)
    } else {
        match control_topic(incoming_params(msg)) {
            Option::None => (
                queue,
                subs,
                match msg {
                    IncomingV::Request(r) => Option::Some(bad_params_reply(r.id)),
                    IncomingV::Notification(_) => Option::None,
                },
            ),
            Option::Some(topic) => (
                queue,
                if method == subscribe_method() {
                    subscribe_t(subs, topic, conn)
                } else {
                    unsubscribe_t(subs, topic, conn)
                },
                match msg {
                    IncomingV::Request(r) => Option::Some(ok_ack(r.id)),
                    IncomingV::Notification(_) => Option::None,
                },
            ),
        }
    }
}

} // verus!
