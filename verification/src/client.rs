//! The client RPC core: monotonic ID allocation, the correlation table
//! from outstanding call IDs to waiting callers, and the demultiplexing of
//! inbound traffic into responses (routed by ID) and notifications (fanned
//! out to every subscription channel).
//!
//! The transport around this core owns the socket: a reader loop hands each
//! decoded message in, a writer loop sends what the core builds, and the
//! caller of `request` blocks on the delivery slot registered here.  A slot
//! is a plain handle (`u64`) standing for the one-shot channel the waiting
//! caller holds.

use vstd::prelude::*;

use crate::error::Error;
use crate::json::{Json, JsonV};
use crate::protocol::{
    opt_json_view, response_id, Notification, NotificationV, Request, RequestV, Response,
    ResponseV, Version, ID, IDV,
};

verus! {

/// One outstanding call: its ID, the waiting caller's delivery slot, and
/// when it was registered (for the diagnostic sweep).
pub struct Pending {
    pub id: ID,
    pub slot: u64,
    pub created_at: u64,
}

#[verifier::ext_equal]
pub struct PendingV {
    pub id: IDV,
    pub slot: u64,
    pub created_at: u64,
}

impl View for Pending {
    type V = PendingV;

    open spec fn view(&self) -> PendingV {
        PendingV { id: self.id@, slot: self.slot, created_at: self.created_at }
    }
}

impl DeepView for Pending {
    type V = PendingV;

    open spec fn deep_view(&self) -> PendingV {
        self.view()
    }
}

/// The correlation and fan-out state of one client connection.
pub struct Client {
    pub next_id: i64,
    pub pending: Vec<Pending>,
    pub subscriptions: Vec<u64>,
}

/// Removing every entry under `id` — what a map insert overwrites.
pub open spec fn remove_id_t(s: Seq<PendingV>, id: IDV) -> Seq<PendingV>
    decreases s.len(),
{
    if s.len() == 0 {
        Seq::empty()
    } else {
        let rest = remove_id_t(s.drop_last(), id);
        if s.last().id == id {
            rest
        } else {
            rest.push(s.last())
        }
    }
}

/// Registering an entry: any older entry under the same ID is replaced.
pub open spec fn register_t(s: Seq<PendingV>, id: IDV, slot: u64, now: u64) -> Seq<PendingV> {
    remove_id_t(s, id).push(PendingV { id, slot, created_at: now })
}

/// The slot waiting under `id`, if any.
pub open spec fn find_slot(s: Seq<PendingV>, id: IDV) -> Option<u64>
    decreases s.len(),
{
    if s.len() == 0 {
        Option::None
    } else if s.last().id == id {
        Option::Some(s.last().slot)
    } else {
        find_slot(s.drop_last(), id)
    }
}

/// No two outstanding calls share an ID.
pub open spec fn ids_unique(s: Seq<PendingV>) -> bool {
    forall|i: int, j: int| 0 <= i < j < s.len() ==> (#[trigger] s[i]).id != (#[trigger] s[j]).id
}

/// The ID counter wraps rather than panics at its numeric limit.
pub open spec fn wrap_inc(n: i64) -> i64 {
    if n == i64::MAX {
        i64::MIN
    } else {
        (n + 1) as i64
    }
}

impl Client {
    pub open spec fn pending_v(&self) -> Seq<PendingV> {
        self.pending.deep_view()
    }

    pub open spec fn subs_v(&self) -> Seq<u64> {
        self.subscriptions@
    }

    /// The connection state right after connecting: no outstanding call, no
    /// subscription, IDs starting above zero.
    pub fn new() -> (c: Client)
        ensures
            c.pending_v() == Seq::<PendingV>::empty(),
            c.subs_v() == Seq::<u64>::empty(),
            c.next_id == 0i64,
            ids_unique(c.pending_v()),
    {
        let c = Client { next_id: 0, pending: Vec::new(), subscriptions: Vec::new() };
        proof {
            assert(c.pending_v() =~= Seq::<PendingV>::empty());
        }
        c
    }

    /// Allocates the next call ID: the counter advances by one and wraps at
    /// its numeric limit.
    pub fn get_next_id(&mut self) -> (r: ID)
        ensures
            final(self).next_id == wrap_inc(old(self).next_id),
            r@ == IDV::Number(final(self).next_id),
            final(self).pending_v() == old(self).pending_v(),
            final(self).subs_v() == old(self).subs_v(),
    {
        if self.next_id == i64::MAX {
            self.next_id = i64::MIN;
        } else {
            self.next_id = self.next_id + 1;
        }
        ID::Number(self.next_id)
    }

    /// Registers a delivery slot for an outstanding call, before the
    /// Request is sent, so that even the fastest reply finds it.  An older
    /// entry under the same ID is replaced, as a map insert would.
    #[verifier::loop_isolation(false)]
    pub fn register(&mut self, id: &ID, slot: u64, now: u64)
        ensures
            final(self).pending_v() == register_t(old(self).pending_v(), id@, slot, now),
            final(self).subs_v() == old(self).subs_v(),
            final(self).next_id == old(self).next_id,
            ids_unique(old(self).pending_v()) ==> ids_unique(final(self).pending_v()),
    {
        let ghost olds = self.pending_v();
        let mut kept: Vec<Pending> = Vec::new();
        let mut k: usize = 0;
        while k < self.pending.len()
            invariant
                k <= self.pending@.len(),
                self.pending_v() == olds,
                kept.deep_view() == remove_id_t(olds.take(k as int), id@),
            decreases self.pending@.len() - k,
        {
            let ghost oldkept = kept.deep_view();
            let p = &self.pending[k];
            if !p.id.same(id) {
                kept.push(Pending { id: p.id.dup(), slot: p.slot, created_at: p.created_at });
                proof {
                    assert(kept.deep_view() =~= oldkept.push(olds[k as int]));
                }
            }
            proof {
                assert(olds.take(k + 1 as int).drop_last() =~= olds.take(k as int));
                assert(olds.take(k + 1 as int).last() == olds[k as int]);
            }
            k += 1;
        }
        kept.push(Pending { id: id.dup(), slot, created_at: now });
        self.pending = kept;
        proof {
            assert(olds.take(olds.len() as int) =~= olds);
            if ids_unique(olds) {
                lemma_remove_id_none_left(olds, id@);
                lemma_remove_id_keeps_unique(olds, id@);
                lemma_push_fresh_unique(remove_id_t(olds, id@), id@, slot, now);
            }
        }
    }

    /// Builds and registers one call in a single step: a fresh ID is
    /// allocated, the delivery slot is filed under it, and the Request to
    /// send is handed back.
    pub fn prepare_request(
        &mut self,
        method: &str,
        params: Option<Json>,
        slot: u64,
        now: u64,
    ) -> (r: Request)
        ensures
            final(self).next_id == wrap_inc(old(self).next_id),
            r@ == (RequestV {
                method: method@,
                params: opt_json_view(params),
                id: IDV::Number(final(self).next_id),
            }),
            final(self).pending_v() == register_t(
                old(self).pending_v(),
                IDV::Number(final(self).next_id),
                slot,
                now,
            ),
            final(self).subs_v() == old(self).subs_v(),
            ids_unique(old(self).pending_v()) ==> ids_unique(final(self).pending_v()),
    {
        let id = self.get_next_id();
        self.register(&id, slot, now);
        Request { jsonrpc: Version::V2, method: String::from_str(method), params, id }
    }

    /// Builds a Notification: no ID, no correlation entry, nothing waited
    /// on.  The receiver `&self` carries no way to touch the correlation
    /// table, so no reply handle can come into being for it.
    pub fn make_notification(&self, method: &str, params: Option<Json>) -> (n: Notification)
        ensures
            n@ == (NotificationV { method: method@, params: opt_json_view(params) }),
    {
        Notification { jsonrpc: Version::V2, method: String::from_str(method), params }
    }

    /// Routes one inbound Response: the entry under its ID is removed and
    /// the Response is handed to exactly that entry's slot.  A Response for
    /// an unknown ID is discarded (the caller logs it), touching no other
    /// outstanding call.
    #[verifier::loop_isolation(false)]
    pub fn accept_response(&mut self, resp: Response) -> (r: Option<(u64, Response)>)
        ensures
            final(self).subs_v() == old(self).subs_v(),
            final(self).next_id == old(self).next_id,
            match find_slot(old(self).pending_v(), response_id(resp@)) {
                Option::None => r is None && final(self).pending_v() == old(self).pending_v(),
                Option::Some(slot) => match r {
                    Option::Some((s, rr)) => s == slot && rr@ == resp@ && final(self).pending_v()
                        == remove_id_t(old(self).pending_v(), response_id(resp@)),
                    Option::None => false,
                },
            },
            ids_unique(old(self).pending_v()) ==> ids_unique(final(self).pending_v()),
    {
        let ghost olds = self.pending_v();
        let ghost idv = response_id(resp@);
        let mut k: usize = self.pending.len();
        proof {
            assert(olds.take(olds.len() as int) =~= olds);
        }
        while k > 0
            invariant
                self.pending_v() == olds,
                self.subs_v() == old(self).subs_v(),
                self.next_id == old(self).next_id,
                k <= self.pending@.len(),
                find_slot(olds, idv) == find_slot(olds.take(k as int), idv),
                forall|j: int|
                    k <= j < olds.len() ==> (#[trigger] olds[j]).id != idv,
            decreases k,
        {
            k -= 1;
            let hit = self.pending[k].id.same(resp.id());
            proof {
                assert(olds.take(k + 1 as int).drop_last() =~= olds.take(k as int));
                assert(olds.take(k + 1 as int).last() == olds[k as int]);
            }
            if hit {
                let slot = self.pending[k].slot;
                // remove exactly the entries under this ID (by uniqueness,
                // just this one, but the model removes them all)
                let ghost before = olds;
                let mut kept: Vec<Pending> = Vec::new();
                let mut t: usize = 0;
                while t < self.pending.len()
                    invariant
                        t <= self.pending@.len(),
                        self.pending_v() == olds,
                        kept.deep_view() == remove_id_t(olds.take(t as int), idv),
                    decreases self.pending@.len() - t,
                {
                    let ghost oldkept = kept.deep_view();
                    let p = &self.pending[t];
                    let is_same = p.id.same(resp.id());
                    if !is_same {
                        kept.push(
                            Pending { id: p.id.dup(), slot: p.slot, created_at: p.created_at },
                        );
                        proof {
                            assert(kept.deep_view() =~= oldkept.push(olds[t as int]));
                        }
                    }
                    proof {
                        assert(olds.take(t + 1 as int).drop_last() =~= olds.take(t as int));
                        assert(olds.take(t + 1 as int).last() == olds[t as int]);
                    }
                    t += 1;
                }
                self.pending = kept;
                proof {
                    assert(olds.take(olds.len() as int) =~= olds);
                    lemma_find_slot_at(olds, k as int, idv);
                    if ids_unique(olds) {
                        lemma_remove_id_keeps_unique(olds, idv);
                    }
                }
                return Some((slot, resp));
            }
        }
        proof {
            assert(olds.take(0) =~= Seq::<PendingV>::empty());
        }
        None
    }

    /// Interprets a routed Response for the waiting caller: a success hands
    /// back its result value, a remote error surfaces as `Error::Rpc`,
    /// distinguishable by variant from any transport or local error.
    pub fn interpret_response(resp: Response) -> (r: Result<Json, Error>)
        ensures
            match resp@ {
                ResponseV::Success { result, .. } => match r {
                    Result::Ok(j) => j@ == result,
                    Result::Err(_) => false,
                },
                ResponseV::Error { error, .. } => match r {
                    Result::Err(Error::Rpc(e)) => e@ == error,
                    _ => false,
                },
            },
    {
        match resp {
            Response::Success { result, .. } => Ok(result),
            Response::Error { error, .. } => Err(Error::Rpc(error)),
        }
    }

    /// Registers one more local subscription channel for fanned-out events.
    pub fn add_subscription(&mut self, slot: u64)
        ensures
            final(self).subs_v() == old(self).subs_v().push(slot),
            final(self).pending_v() == old(self).pending_v(),
            final(self).next_id == old(self).next_id,
    {
        self.subscriptions.push(slot);
    }

    /// The channels an inbound Notification is fanned out to: all of them.
    pub fn fanout_targets(&self) -> (r: Vec<u64>)
        ensures
            r@ == self.subs_v(),
    {
        let mut out: Vec<u64> = Vec::new();
        let mut k: usize = 0;
        while k < self.subscriptions.len()
            invariant
                k <= self.subscriptions@.len(),
                out@ == self.subs_v().take(k as int),
            decreases self.subscriptions@.len() - k,
        {
            out.push(self.subscriptions[k]);
            proof {
                assert(out@ =~= self.subs_v().take(k + 1 as int));
            }
            k += 1;
        }
        proof {
            assert(self.subs_v().take(self.subs_v().len() as int) =~= self.subs_v());
        }
        out
    }

    /// Prunes one subscription channel that failed to accept an event.
    #[verifier::loop_isolation(false)]
    pub fn remove_subscription(&mut self, slot: u64)
        ensures
            final(self).subs_v() == old(self).subs_v().filter(|s: u64| s != slot),
            final(self).pending_v() == old(self).pending_v(),
            final(self).next_id == old(self).next_id,
    {
        let ghost olds = self.subs_v();
        let mut kept: Vec<u64> = Vec::new();
        let mut k: usize = 0;
        while k < self.subscriptions.len()
            invariant
                k <= self.subscriptions@.len(),
                self.subs_v() == olds,
                self.pending_v() == old(self).pending_v(),
                kept@ == olds.take(k as int).filter(|s: u64| s != slot),
            decreases self.subscriptions@.len() - k,
        {
            let s = self.subscriptions[k];
            if s != slot {
                kept.push(s);
            }
            proof {
                reveal(Seq::filter);
                assert(olds.take(k + 1 as int).drop_last() =~= olds.take(k as int));
                assert(olds.take(k + 1 as int).last() == olds[k as int]);
            }
            k += 1;
        }
        self.subscriptions = kept;
        proof {
            assert(olds.take(olds.len() as int) =~= olds);
        }
    }

    /// Tears the correlation table down on connection loss: every
    /// outstanding entry is handed back so the transport can deliver a
    /// local error to each waiting caller, and none is left to hang.
    pub fn take_all_pending(&mut self) -> (r: Vec<Pending>)
        ensures
            r.deep_view() == old(self).pending_v(),
            final(self).pending_v() == Seq::<PendingV>::empty(),
            final(self).subs_v() == old(self).subs_v(),
            final(self).next_id == old(self).next_id,
    {
        let mut out: Vec<Pending> = Vec::new();
        std::mem::swap(&mut out, &mut self.pending);
        proof {
            assert(self.pending_v() =~= Seq::<PendingV>::empty());
        }
        out
    }

    /// The diagnostic heartbeat: entries outstanding longer than `timeout`
    /// are reported and their stamps refreshed.  Nothing is evicted and no
    /// call is failed — every entry keeps waiting.
    #[verifier::loop_isolation(false)]
    #[verifier::rlimit(80)]
    pub fn sweep(&mut self, now: u64, timeout: u64) -> (stale: Vec<ID>)
        ensures
            final(self).subs_v() == old(self).subs_v(),
            final(self).next_id == old(self).next_id,
            final(self).pending_v().len() == old(self).pending_v().len(),
            forall|k: int|
                0 <= k < old(self).pending_v().len() ==> {
                    let p = old(self).pending_v()[k];
                    #[trigger] final(self).pending_v()[k] == if is_stale(p, now, timeout) {
                        PendingV { id: p.id, slot: p.slot, created_at: now }
                    } else {
                        p
                    }
                },
            stale.deep_view() == stale_ids(old(self).pending_v(), now, timeout),
            ids_unique(old(self).pending_v()) ==> ids_unique(final(self).pending_v()),
    {
        let ghost olds = self.pending_v();
        let mut out: Vec<Pending> = Vec::new();
        let mut stale: Vec<ID> = Vec::new();
        let mut k: usize = 0;
        while k < self.pending.len()
            invariant
                k <= self.pending@.len(),
                self.pending_v() == olds,
                out@.len() == k,
                forall|j: int|
                    0 <= j < k ==> (#[trigger] out@[j])@ == if is_stale(olds[j], now, timeout) {
                        PendingV { id: olds[j].id, slot: olds[j].slot, created_at: now }
                    } else {
                        olds[j]
                    },
                stale.deep_view() == stale_ids(olds.take(k as int), now, timeout),
            decreases self.pending@.len() - k,
        {
            let ghost oldstale = stale.deep_view();
            let p = &self.pending[k];
            let is_old = p.created_at <= now && now - p.created_at >= timeout;
            if is_old {
                stale.push(p.id.dup());
                out.push(Pending { id: p.id.dup(), slot: p.slot, created_at: now });
                proof {
                    assert(stale.deep_view() =~= oldstale.push(olds[k as int].id));
                    assert(out@[k as int]@ == (PendingV {
                        id: olds[k as int].id,
                        slot: olds[k as int].slot,
                        created_at: now,
                    }));
                }
            } else {
                out.push(Pending { id: p.id.dup(), slot: p.slot, created_at: p.created_at });
                proof {
                    assert(out@[k as int]@ == olds[k as int]);
                }
            }
            proof {
                assert(olds.take(k + 1 as int).drop_last() =~= olds.take(k as int));
                assert(olds.take(k + 1 as int).last() == olds[k as int]);
            }
            k += 1;
        }
        self.pending = out;
        proof {
            assert(olds.take(olds.len() as int) =~= olds);
            assert(forall|j: int|
                0 <= j < self.pending_v().len() ==> #[trigger] self.pending_v()[j] == out@[j]@);
            if ids_unique(olds) {
                assert forall|i: int, j: int| 0 <= i < j < self.pending_v().len() implies (
                #[trigger] self.pending_v()[i]).id != (#[trigger] self.pending_v()[j]).id by {
                    assert(self.pending_v()[i].id == olds[i].id);
                    assert(self.pending_v()[j].id == olds[j].id);
                }
            }
        }
        stale
    }
}

/// What heck's camel-casing makes of a method name: a pure function of the
/// input's characters.
pub uninterp spec fn camel_case_of(s: Seq<char>) -> Seq<char>;

/// Relies on heck's `CamelCase::to_camel_case`: it computes the camel-cased
/// form from the input's characters alone.
#[verifier::external_body]
fn to_camel_case(s: &str) -> (r: String)
    ensures
        r@ == camel_case_of(s@),
{
    heck::CamelCase::to_camel_case(s)
}

/// The event value a Notification fans out as: an object whose single key
/// is the camel-cased method name and whose value is the payload.
pub fn raw_event(method: &str, params: Json) -> (r: Json)
    ensures
        r@ == JsonV::Obj(seq![(camel_case_of(method@), params@)]),
{
    let ghost pv = params@;
    let key = to_camel_case(method);
    let mut m: Vec<(String, Json)> = Vec::new();
    m.push((key, params));
    let r = Json::Obj(m);
    proof {
        broadcast use crate::json::views_of_members_len, crate::json::views_of_members_index;

        assert(crate::json::views_of_members(m@) =~= seq![(camel_case_of(method@), pv)]);
    }
    r
}

/// An entry the heartbeat reports: registered at least `timeout` ago.
pub open spec fn is_stale(p: PendingV, now: u64, timeout: u64) -> bool {
    p.created_at <= now && now - p.created_at >= timeout
}

/// The IDs the heartbeat reports, in table order.
pub open spec fn stale_ids(s: Seq<PendingV>, now: u64, timeout: u64) -> Seq<IDV>
    decreases s.len(),
{
    if s.len() == 0 {
        Seq::empty()
    } else {
        let rest = stale_ids(s.drop_last(), now, timeout);
        if is_stale(s.last(), now, timeout) {
            rest.push(s.last().id)
        } else {
            rest
        }
    }
}

// ---------------------------------------------------------------------------
// Laws of the correlation table
// ---------------------------------------------------------------------------

/// Nothing under `id` is left after removal.
proof fn lemma_remove_id_none_left(s: Seq<PendingV>, id: IDV)
    ensures
        forall|k: int|
            0 <= k < remove_id_t(s, id).len() ==> (#[trigger] remove_id_t(s, id)[k]).id != id,
    decreases s.len(),
{
    if s.len() > 0 {
        lemma_remove_id_none_left(s.drop_last(), id);
        let rest = remove_id_t(s.drop_last(), id);
        if s.last().id != id {
            assert(forall|k: int|
                0 <= k < rest.push(s.last()).len() ==> (#[trigger] rest.push(s.last())[k]).id
                    != id);
        }
    }
}

/// Removal keeps every entry under another ID, and keeps uniqueness.
proof fn lemma_remove_id_keeps_unique(s: Seq<PendingV>, id: IDV)
    requires
        ids_unique(s),
    ensures
        ids_unique(remove_id_t(s, id)),
        forall|k: int|
            0 <= k < s.len() && (#[trigger] s[k]).id != id ==> remove_id_t(s, id).contains(s[k]),
    decreases s.len(),
{
    if s.len() > 0 {
        assert(ids_unique(s.drop_last()));
        lemma_remove_id_keeps_unique(s.drop_last(), id);
        let rest = remove_id_t(s.drop_last(), id);
        lemma_remove_id_subset(s.drop_last(), id);
        if s.last().id != id {
            assert forall|i: int, j: int|
                0 <= i < j < rest.push(s.last()).len() implies (#[trigger] rest.push(
                s.last(),
            )[i]).id != (#[trigger] rest.push(s.last())[j]).id by {
                if j == rest.len() {
                    let e = rest[i];
                    assert(rest.contains(e)) by {
                        assert(rest[i] == e);
                    }
                    let w = choose|w: int| 0 <= w < s.drop_last().len() && s.drop_last()[w] == e;
                    assert(s[w] == e);
                    assert(s[s.len() - 1] == s.last());
                }
            }
            assert forall|k: int|
                0 <= k < s.len() && (#[trigger] s[k]).id != id implies remove_id_t(
                s,
                id,
            ).contains(s[k]) by {
                if k == s.len() - 1 {
                    assert(rest.push(s.last())[rest.len() as int] == s[k]);
                } else {
                    assert(s.drop_last()[k] == s[k]);
                    let w = choose|w: int| 0 <= w < rest.len() && rest[w] == s[k];
                    assert(rest.push(s.last())[w] == s[k]);
                }
            }
        } else {
            assert forall|k: int|
                0 <= k < s.len() && (#[trigger] s[k]).id != id implies remove_id_t(
                s,
                id,
            ).contains(s[k]) by {
                assert(k < s.len() - 1);
                assert(s.drop_last()[k] == s[k]);
            }
        }
    }
}

/// Everything the removal keeps was in the table.
proof fn lemma_remove_id_subset(s: Seq<PendingV>, id: IDV)
    ensures
        forall|k: int|
            0 <= k < remove_id_t(s, id).len() ==> exists|w: int|
                0 <= w < s.len() && s[w] == #[trigger] remove_id_t(s, id)[k],
    decreases s.len(),
{
    if s.len() > 0 {
        lemma_remove_id_subset(s.drop_last(), id);
        let rest = remove_id_t(s.drop_last(), id);
        assert forall|k: int|
            0 <= k < remove_id_t(s, id).len() implies exists|w: int|
                0 <= w < s.len() && s[w] == #[trigger] remove_id_t(s, id)[k] by {
            if s.last().id != id && k == rest.len() {
                assert(s[s.len() - 1] == remove_id_t(s, id)[k]);
            } else {
                let e = remove_id_t(s, id)[k];
                assert(rest[k] == e);
                let w = choose|w: int| 0 <= w < s.drop_last().len() && s.drop_last()[w] == e;
                assert(s[w] == e);
            }
        }
    }
}

/// A fresh entry on a table that holds nothing under its ID keeps IDs
/// unique.
proof fn lemma_push_fresh_unique(s: Seq<PendingV>, id: IDV, slot: u64, now: u64)
    requires
        ids_unique(s),
        forall|k: int| 0 <= k < s.len() ==> (#[trigger] s[k]).id != id,
    ensures
        ids_unique(s.push(PendingV { id, slot, created_at: now })),
{
    let s2 = s.push(PendingV { id, slot, created_at: now });
    assert forall|i: int, j: int| 0 <= i < j < s2.len() implies (#[trigger] s2[i]).id != (
    #[trigger] s2[j]).id by {
        if j < s.len() {
        } else {
            assert(s2[i] == s[i]);
        }
    }
}

/// The slot found under an ID is the one registered at that entry.
proof fn lemma_find_slot_at(s: Seq<PendingV>, k: int, id: IDV)
    requires
        ids_unique(s) || (forall|j: int| k < j < s.len() ==> (#[trigger] s[j]).id != id),
        0 <= k < s.len(),
        s[k].id == id,
    ensures
        find_slot(s, id) == Option::Some(s[k].slot),
    decreases s.len(),
{
    if k == s.len() - 1 {
        assert(s.last() == s[k]);
    } else {
        assert(s[s.len() - 1].id != id);
        assert(s.drop_last()[k] == s[k]);
        assert(ids_unique(s) ==> ids_unique(s.drop_last()));
        lemma_find_slot_at(s.drop_last(), k, id);
    }
}

/// Under concurrent load with distinct IDs, each caller receives exactly
/// the Response whose ID matches its own Request's ID: routing a Response
/// delivers it to the one slot registered under that ID, and every other
/// outstanding call stays in the table untouched.
pub proof fn lemma_correlation(s: Seq<PendingV>, k1: int, k2: int)
    requires
        ids_unique(s),
        0 <= k1 < s.len(),
        0 <= k2 < s.len(),
        k1 != k2,
    ensures
        find_slot(s, s[k1].id) == Option::Some(s[k1].slot),
        remove_id_t(s, s[k1].id).contains(s[k2]),
{
    lemma_find_slot_at(s, k1, s[k1].id);
    lemma_remove_id_keeps_unique(s, s[k1].id);
    if k1 < k2 {
        assert(s[k1].id != s[k2].id);
    } else {
        assert(s[k2].id != s[k1].id);
    }
}

} // verus!
