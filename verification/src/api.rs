//! The subscription table: it owns the client model, the shared pin
//! budget and every follow subscription, keyed by the subscription id
//! string. Each method forwards to the addressed subscription and promises
//! exactly that subscription's behaviour; methods addressed to an unknown
//! (or stopped, hence withdrawn) subscription behave as the surface
//! requires: `LimitReached` for the operations, no header, and silent
//! success for unpin, continue and stop-operation. The backend's pin
//! reference count of a block is the number of subscriptions currently
//! pinning it.

use vstd::prelude::*;

use crate::client::{BlockRecord, ClientModel};
use crate::decimal::{dec_str, u64_to_dec_string};
use crate::events::{FollowEvent, MethodResponse, RpcError};
use crate::follow::{
    body_spec, call_spec, continue_op_spec, expired_pins, on_finality_rel, on_finality_spec,
    on_import_rel, on_import_spec, open_spec, poll_event_spec, stop_operation_spec, stop_rel,
    stop_spec, sweep_rel, unpin_spec, GlobalPins, Subscription,
};
use crate::storage::DecodedQuery;

verus! {

/// The configured limits of the engine.
pub struct ChainHeadConfig {
    /// Pins held by all subscriptions together, at most.
    pub global_max_pinned_blocks: usize,
    /// Ticks a block may stay pinned before its subscription is stopped.
    pub subscription_max_pinned_duration: u64,
    /// Concurrently ongoing operations per subscription, at most.
    pub subscription_max_ongoing_operations: usize,
    /// Storage items per batch, at most.
    pub operation_max_storage_items: usize,
}

/// The pins held by a sequence of subscriptions, together.
pub open spec fn sum_pins(s: Seq<Subscription>) -> int
    decreases s.len(),
{
    if s.len() == 0 {
        0
    } else {
        sum_pins(s.drop_last()) + s.last().pins@.len()
    }
}

/// How many of the subscriptions pin a block: the backend's reference
/// count for it.
pub open spec fn pin_count(s: Seq<Subscription>, h: u64) -> int
    decreases s.len(),
{
    if s.len() == 0 {
        0
    } else {
        pin_count(s.drop_last(), h) + (if s.last().pinned(h) {
            1int
        } else {
            0int
        })
    }
}

/// Index `i` names the subscription a request for `id` addresses: the
/// first live subscription carrying the id.
pub open spec fn live_sub_at(s: Seq<Subscription>, id: Seq<char>, i: int) -> bool {
    &&& 0 <= i < s.len()
    &&& s[i].id@ == id
    &&& !s[i].stopped
    &&& (forall|j: int| 0 <= j < i ==> !((#[trigger] s[j]).id@ == id && !s[j].stopped))
}

/// No live subscription carries the id: the request addresses nobody.
pub open spec fn no_live_sub(s: Seq<Subscription>, id: Seq<char>) -> bool {
    forall|i: int| 0 <= i < s.len() ==> !((#[trigger] s[i]).id@ == id && !s[i].stopped)
}

/// Index `i` names the first subscription carrying the id, stopped or
/// not: undelivered events can still be polled after a stop.
pub open spec fn sub_at(s: Seq<Subscription>, id: Seq<char>, i: int) -> bool {
    &&& 0 <= i < s.len()
    &&& s[i].id@ == id
    &&& (forall|j: int| 0 <= j < i ==> (#[trigger] s[j]).id@ != id)
}

/// Appending a subscription adds its pins to the total.
proof fn lemma_sum_pins_push(s: Seq<Subscription>, sub: Subscription)
    ensures
        sum_pins(s.push(sub)) == sum_pins(s) + sub.pins@.len(),
{
    assert(s.push(sub).drop_last() =~= s);
    assert(s.push(sub).last() == sub);
}

/// Replacing one subscription changes the total by its pin difference.
proof fn lemma_sum_pins_update(s: Seq<Subscription>, i: int, sub: Subscription)
    requires
        0 <= i < s.len(),
    ensures
        sum_pins(s.update(i, sub)) == sum_pins(s) + sub.pins@.len() - s[i].pins@.len(),
    decreases s.len(),
{
    if i == s.len() - 1 {
        assert(s.update(i, sub).drop_last() =~= s.drop_last());
        assert(s.update(i, sub).last() == sub);
    } else {
        lemma_sum_pins_update(s.drop_last(), i, sub);
        assert(s.update(i, sub).drop_last() =~= s.drop_last().update(i, sub));
        assert(s.update(i, sub).last() == s.last());
    }
}

/// No subscription holds more pins than the total.
proof fn lemma_sum_pins_bound(s: Seq<Subscription>, i: int)
    requires
        0 <= i < s.len(),
    ensures
        s[i].pins@.len() <= sum_pins(s),
        sum_pins(s) >= 0,
    decreases s.len(),
{
    if s.len() > 0 {
        if i == s.len() - 1 {
            lemma_sum_pins_nonneg(s.drop_last());
        } else {
            lemma_sum_pins_bound(s.drop_last(), i);
        }
    }
}

/// Pin totals are never negative.
proof fn lemma_sum_pins_nonneg(s: Seq<Subscription>)
    ensures
        sum_pins(s) >= 0,
    decreases s.len(),
{
    if s.len() > 0 {
        lemma_sum_pins_nonneg(s.drop_last());
    }
}

/// The engine: the client's view, the shared pin budget, and the follow
/// subscriptions.
pub struct ChainHead {
    pub config: ChainHeadConfig,
    pub client: ClientModel,
    pub subs: Vec<Subscription>,
    pub budget: GlobalPins,
    pub next_sub_seq: u64,
}

impl ChainHead {
    /// The engine invariant: the client model is well formed, every
    /// subscription invariant holds against it, and the budget counts
    /// exactly the pins held by all subscriptions.
    pub open spec fn wf(&self) -> bool {
        &&& self.client.wf()
        &&& (forall|i: int|
            0 <= i < self.subs@.len() ==> (#[trigger] self.subs@[i]).inv(self.client.chain()))
        &&& sum_pins(self.subs@) == self.budget.used as int
        &&& self.budget.used <= self.budget.cap
        &&& self.budget.cap == self.config.global_max_pinned_blocks
        &&& self.config.operation_max_storage_items >= 1
    }

    /// A fresh engine over a genesis block.
    pub fn new(genesis: BlockRecord, config: ChainHeadConfig) -> (r: ChainHead)
        requires
            genesis.number == 0,
            crate::client::block_data_wf(genesis@),
            config.operation_max_storage_items >= 1,
        ensures
            r.wf(),
            r.client.chain() == Map::<u64, crate::client::BlockV>::empty().insert(
                genesis.hash,
                genesis@,
            ),
            r.client.finalized == genesis.hash,
            r.client.best == genesis.hash,
            r.subs@.len() == 0,
            r.next_sub_seq == 0,
            r.budget.used == 0,
            r.config == config,
    {
        let cap = config.global_max_pinned_blocks;
        let r = ChainHead {
            config,
            client: ClientModel::new(genesis),
            subs: Vec::new(),
            budget: GlobalPins { used: 0, cap },
            next_sub_seq: 0,
        };
        proof {
            assert(sum_pins(r.subs@) == 0);
        }
        r
    }

    /// The client imports a block; no notification is delivered yet.
    pub fn client_import(&mut self, rec: BlockRecord, make_best: bool)
        requires
            old(self).wf(),
            !old(self).client.chain().contains_key(rec.hash),
            old(self).client.chain().contains_key(rec.parent),
            rec.number == old(self).client.chain()[rec.parent].number + 1,
            crate::client::block_data_wf(rec@),
            make_best ==> crate::client::anc_or_eq(
                old(self).client.chain(),
                old(self).client.finalized,
                rec.parent,
            ),
        ensures
            final(self).wf(),
            final(self).client.chain() == old(self).client.chain().insert(rec.hash, rec@),
            final(self).client.finalized == old(self).client.finalized,
            final(self).client.best == (if make_best {
                rec.hash
            } else {
                old(self).client.best
            }),
            *final(self) == (ChainHead { client: final(self).client, ..*old(self) }),
    {
        let ghost h = rec.hash;
        let ghost v = rec@;
        self.client.import_block(rec, make_best);
        proof {
            let m0 = old(self).client.chain();
            assert forall|i: int| 0 <= i < self.subs@.len() implies (
            #[trigger] self.subs@[i]).inv(self.client.chain()) by {
                Self::lemma_sub_inv_grow(self.subs@[i], m0, h, v);
            }
        }
    }

    /// A subscription invariant survives a fresh block joining the chain.
    proof fn lemma_sub_inv_grow(
        sub: Subscription,
        m: Map<u64, crate::client::BlockV>,
        h: u64,
        v: crate::client::BlockV,
    )
        requires
            sub.inv(m),
            !m.contains_key(h),
        ensures
            sub.inv(m.insert(h, v)),
    {
        let m2 = m.insert(h, v);
        assert forall|i: int| 0 <= i < sub.pins@.len() implies m2.contains_key(
            (#[trigger] sub.pins@[i]).hash,
        ) && sub.adv_contains(sub.pins@[i].hash) by {}
        assert forall|i: int| 0 <= i < sub.advertised@.len() implies m2.contains_key(
            (#[trigger] sub.advertised@[i]).hash,
        ) by {}
        assert(sub.ops_inv(m2)) by {
            assert forall|i: int|
                0 <= i < sub.storage_ops@.len() implies {
                    let op = #[trigger] sub.storage_ops@[i];
                    &&& op.seq < sub.next_op_seq
                    &&& op.id@ == dec_str(op.seq as nat)
                    &&& m2.contains_key(op.block)
                    &&& op.slots >= 1
                    &&& op.query_idx < op.queries@.len()
                } by {}
        }
    }

    /// The client finalizes a block; no notification is delivered yet.
    pub fn client_finalize(&mut self, h: u64)
        requires
            old(self).wf(),
            old(self).client.chain().contains_key(h),
            crate::client::anc_or_eq(
                old(self).client.chain(),
                old(self).client.finalized,
                h,
            ),
        ensures
            final(self).wf(),
            final(self).client.chain() == old(self).client.chain(),
            final(self).client.finalized == h,
            *final(self) == (ChainHead { client: final(self).client, ..*old(self) }),
    {
        self.client.finalize(h);
    }

    /// Opens a follow subscription and returns its id: the new
    /// subscription joins the table in the state `Subscription::open`
    /// promises against the current client.
    pub fn follow(&mut self, with_runtime: bool, now: u64) -> (r: String)
        requires
            old(self).wf(),
            old(self).next_sub_seq < u64::MAX,
        ensures
            final(self).wf(),
            r@ == dec_str(old(self).next_sub_seq as nat),
            final(self).next_sub_seq == old(self).next_sub_seq + 1,
            final(self).client == old(self).client,
            final(self).budget.cap == old(self).budget.cap,
            final(self).subs@ == old(self).subs@.push(final(self).subs@.last()),
            open_spec(
                final(self).subs@.last(),
                old(self).client,
                old(self).budget.used as int,
                final(self).budget.used as int,
                old(self).budget.cap as int,
                dec_str(old(self).next_sub_seq as nat),
                with_runtime,
                old(self).config.subscription_max_ongoing_operations,
                old(self).config.operation_max_storage_items,
                old(self).config.subscription_max_pinned_duration,
            ),
    {
        let id = u64_to_dec_string(self.next_sub_seq);
        self.next_sub_seq = self.next_sub_seq + 1;
        let sub = Subscription::open(
            id.clone(),
            with_runtime,
            self.config.subscription_max_ongoing_operations,
            self.config.operation_max_storage_items,
            self.config.subscription_max_pinned_duration,
            &self.client,
            &mut self.budget,
            now,
        );
        let ghost pre_subs = self.subs@;
        self.subs.push(sub);
        proof {
            lemma_sum_pins_push(pre_subs, sub);
            assert(self.subs@ =~= pre_subs.push(self.subs@.last()));
        }
        id
    }

    /// Finds the live subscription addressed by an id.
    fn find_sub(&self, id: &String) -> (r: Option<usize>)
        ensures
            match r {
                Some(i) => live_sub_at(self.subs@, id@, i as int),
                None => no_live_sub(self.subs@, id@),
            },
    {
        let mut i: usize = 0;
        while i < self.subs.len()
            invariant
                i <= self.subs@.len(),
                forall|j: int|
                    0 <= j < i ==> !((#[trigger] self.subs@[j]).id@ == id@
                        && !self.subs@[j].stopped),
            decreases self.subs@.len() - i,
        {
            if self.subs[i].id.eq(id) && !self.subs[i].stopped {
                return Some(i);
            }
            i = i + 1;
        }
        None
    }

    /// Finds the subscription carrying an id, stopped or not.
    fn find_sub_any(&self, id: &String) -> (r: Option<usize>)
        ensures
            match r {
                Some(i) => sub_at(self.subs@, id@, i as int),
                None => forall|j: int|
                    0 <= j < self.subs@.len() ==> (#[trigger] self.subs@[j]).id@ != id@,
            },
    {
        let mut i: usize = 0;
        while i < self.subs.len()
            invariant
                i <= self.subs@.len(),
                forall|j: int| 0 <= j < i ==> (#[trigger] self.subs@[j]).id@ != id@,
            decreases self.subs@.len() - i,
        {
            if self.subs[i].id.eq(id) {
                return Some(i);
            }
            i = i + 1;
        }
        None
    }

    /// The first live index addressed by an id is unique.
    proof fn lemma_live_sub_unique(s: Seq<Subscription>, id: Seq<char>, a: int, b: int)
        requires
            live_sub_at(s, id, a),
            live_sub_at(s, id, b),
        ensures
            a == b,
    {
        if a < b {
            assert(!(s[a].id@ == id && !s[a].stopped));
        }
        if b < a {
            assert(!(s[b].id@ == id && !s[b].stopped));
        }
    }

    /// Delivers a block-import notification: every live subscription
    /// handles it as `Subscription::on_import` promises, under the budget
    /// it saw.
    pub fn notify_import(&mut self, h: u64, is_new_best: bool, now: u64)
        requires
            old(self).wf(),
            old(self).client.chain().contains_key(h),
        ensures
            final(self).wf(),
            final(self).client == old(self).client,
            final(self).budget.cap == old(self).budget.cap,
            final(self).subs@.len() == old(self).subs@.len(),
            forall|i: int|
                0 <= i < old(self).subs@.len() ==> on_import_rel(
                    old(self).subs@[i],
                    #[trigger] final(self).subs@[i],
                    old(self).client.chain(),
                    old(self).budget.cap as int,
                    h,
                    is_new_best,
                    now,
                ),
    {
        let mut i: usize = 0;
        while i < self.subs.len()
            invariant
                self.wf(),
                self.client == old(self).client,
                self.budget.cap == old(self).budget.cap,
                self.client.chain().contains_key(h),
                i <= self.subs@.len(),
                self.subs@.len() == old(self).subs@.len(),
                forall|j: int| i <= j < self.subs@.len() ==> #[trigger] self.subs@[j] == old(self).subs@[j],
                forall|j: int|
                    0 <= j < i ==> on_import_rel(
                        old(self).subs@[j],
                        #[trigger] self.subs@[j],
                        old(self).client.chain(),
                        old(self).budget.cap as int,
                        h,
                        is_new_best,
                        now,
                    ),
            decreases self.subs@.len() - i,
        {
            proof {
                lemma_sum_pins_bound(self.subs@, i as int);
            }
            let ghost pre_subs = self.subs@;
            let ghost u0 = self.budget.used as int;
            let sub = &mut self.subs[i];
            sub.on_import(&self.client, &mut self.budget, h, is_new_best, now);
            proof {
                lemma_sum_pins_update(pre_subs, i as int, self.subs@[i as int]);
                let u1 = self.budget.used as int;
                assert(on_import_spec(
                    old(self).subs@[i as int],
                    self.subs@[i as int],
                    old(self).client.chain(),
                    u0,
                    u1,
                    old(self).budget.cap as int,
                    h,
                    is_new_best,
                    now,
                ));
                assert(on_import_rel(
                    old(self).subs@[i as int],
                    self.subs@[i as int],
                    old(self).client.chain(),
                    old(self).budget.cap as int,
                    h,
                    is_new_best,
                    now,
                ));
                assert forall|j: int| 0 <= j < i + 1 implies on_import_rel(
                    old(self).subs@[j],
                    #[trigger] self.subs@[j],
                    old(self).client.chain(),
                    old(self).budget.cap as int,
                    h,
                    is_new_best,
                    now,
                ) by {
                    if j < i {
                        assert(self.subs@[j] == pre_subs[j]);
                        assert(on_import_rel(
                            old(self).subs@[j],
                            pre_subs[j],
                            old(self).client.chain(),
                            old(self).budget.cap as int,
                            h,
                            is_new_best,
                            now,
                        ));
                    }
                }
            }
            i = i + 1;
        }
    }

    /// Delivers a finality notification: every live subscription handles
    /// it as `Subscription::on_finality` promises, under the budget it
    /// saw.
    pub fn notify_finality(&mut self, f: u64, now: u64)
        requires
            old(self).wf(),
            old(self).client.chain().contains_key(f),
        ensures
            final(self).wf(),
            final(self).client == old(self).client,
            final(self).budget.cap == old(self).budget.cap,
            final(self).subs@.len() == old(self).subs@.len(),
            forall|i: int|
                0 <= i < old(self).subs@.len() ==> on_finality_rel(
                    old(self).subs@[i],
                    #[trigger] final(self).subs@[i],
                    old(self).client.chain(),
                    old(self).client.best,
                    old(self).budget.cap as int,
                    f,
                ),
    {
        let mut i: usize = 0;
        while i < self.subs.len()
            invariant
                self.wf(),
                self.client == old(self).client,
                self.budget.cap == old(self).budget.cap,
                self.client.chain().contains_key(f),
                i <= self.subs@.len(),
                self.subs@.len() == old(self).subs@.len(),
                forall|j: int| i <= j < self.subs@.len() ==> #[trigger] self.subs@[j] == old(self).subs@[j],
                forall|j: int|
                    0 <= j < i ==> on_finality_rel(
                        old(self).subs@[j],
                        #[trigger] self.subs@[j],
                        old(self).client.chain(),
                        old(self).client.best,
                        old(self).budget.cap as int,
                        f,
                    ),
            decreases self.subs@.len() - i,
        {
            proof {
                lemma_sum_pins_bound(self.subs@, i as int);
            }
            let ghost pre_subs = self.subs@;
            let ghost u0 = self.budget.used as int;
            let sub = &mut self.subs[i];
            sub.on_finality(&self.client, &mut self.budget, f, now);
            proof {
                lemma_sum_pins_update(pre_subs, i as int, self.subs@[i as int]);
                let u1 = self.budget.used as int;
                assert(on_finality_spec(
                    old(self).subs@[i as int],
                    self.subs@[i as int],
                    old(self).client.chain(),
                    old(self).client.best,
                    u0,
                    u1,
                    old(self).budget.cap as int,
                    f,
                ));
                assert(on_finality_rel(
                    old(self).subs@[i as int],
                    self.subs@[i as int],
                    old(self).client.chain(),
                    old(self).client.best,
                    old(self).budget.cap as int,
                    f,
                ));
                assert forall|j: int| 0 <= j < i + 1 implies on_finality_rel(
                    old(self).subs@[j],
                    #[trigger] self.subs@[j],
                    old(self).client.chain(),
                    old(self).client.best,
                    old(self).budget.cap as int,
                    f,
                ) by {
                    if j < i {
                        assert(self.subs@[j] == pre_subs[j]);
                        assert(on_finality_rel(
                            old(self).subs@[j],
                            pre_subs[j],
                            old(self).client.chain(),
                            old(self).client.best,
                            old(self).budget.cap as int,
                            f,
                        ));
                    }
                }
            }
            i = i + 1;
        }
    }

    /// Stops every subscription holding a pin past the allowance; the
    /// others are untouched.
    pub fn sweep(&mut self, now: u64)
        requires
            old(self).wf(),
        ensures
            final(self).wf(),
            final(self).client == old(self).client,
            final(self).budget.cap == old(self).budget.cap,
            final(self).subs@.len() == old(self).subs@.len(),
            forall|i: int|
                0 <= i < old(self).subs@.len() ==> sweep_rel(
                    old(self).subs@[i],
                    #[trigger] final(self).subs@[i],
                    now,
                ),
    {
        let mut i: usize = 0;
        while i < self.subs.len()
            invariant
                self.wf(),
                self.client == old(self).client,
                self.budget.cap == old(self).budget.cap,
                i <= self.subs@.len(),
                self.subs@.len() == old(self).subs@.len(),
                forall|j: int| i <= j < self.subs@.len() ==> #[trigger] self.subs@[j] == old(self).subs@[j],
                forall|j: int|
                    0 <= j < i ==> sweep_rel(old(self).subs@[j], #[trigger] self.subs@[j], now),
            decreases self.subs@.len() - i,
        {
            let ghost pre_subs = self.subs@;
            let expired = self.subs[i].sweep(now);
            if expired.len() > 0 && !self.subs[i].stopped {
                proof {
                    lemma_sum_pins_bound(self.subs@, i as int);
                }
                let ghost u0 = self.budget.used as int;
                let sub = &mut self.subs[i];
                sub.stop_now(&self.client, &mut self.budget);
                proof {
                    lemma_sum_pins_update(pre_subs, i as int, self.subs@[i as int]);
                    let u1 = self.budget.used as int;
                    assert(stop_spec(old(self).subs@[i as int], self.subs@[i as int], u0, u1));
                    assert(stop_rel(old(self).subs@[i as int], self.subs@[i as int]));
                    assert(sweep_rel(old(self).subs@[i as int], self.subs@[i as int], now));
                }
            } else {
                proof {
                    assert(self.subs@[i as int] == old(self).subs@[i as int]);
                    assert(sweep_rel(old(self).subs@[i as int], self.subs@[i as int], now));
                }
            }
            proof {
                assert forall|j: int| 0 <= j < i + 1 implies sweep_rel(
                    old(self).subs@[j],
                    #[trigger] self.subs@[j],
                    now,
                ) by {
                    if j < i {
                        assert(self.subs@[j] == pre_subs[j]);
                        assert(sweep_rel(old(self).subs@[j], pre_subs[j], now));
                    }
                }
            }
            i = i + 1;
        }
    }

    /// The next undelivered event of a subscription, if any; a stopped
    /// subscription still yields its remaining events, the terminal
    /// `Stop` last.
    pub fn next_event(&mut self, sub_id: &String) -> (r: Option<FollowEvent>)
        requires
            old(self).wf(),
        ensures
            final(self).wf(),
            final(self).client == old(self).client,
            final(self).budget == old(self).budget,
            (forall|j: int|
                0 <= j < old(self).subs@.len() ==> (#[trigger] old(self).subs@[j]).id@ != sub_id@)
                ==> r is None && *final(self) == *old(self),
            forall|i: int|
                sub_at(old(self).subs@, sub_id@, i) ==> {
                    &&& final(self).subs@ == old(self).subs@.update(i, final(self).subs@[i])
                    &&& poll_event_spec(old(self).subs@[i], #[trigger] final(self).subs@[i], r)
                },
    {
        let i = match self.find_sub_any(sub_id) {
            Some(i) => i,
            None => {
                return None;
            },
        };
        let ghost pre_subs = self.subs@;
        let client = &self.client;
        let sub = &mut self.subs[i];
        let r = sub.poll_event(client);
        proof {
            lemma_sum_pins_update(pre_subs, i as int, self.subs@[i as int]);
            assert forall|j: int| sub_at(old(self).subs@, sub_id@, j) implies j == i as int by {
                if j < i as int {
                    assert(old(self).subs@[j].id@ != sub_id@);
                } else if j > i as int {
                    assert(old(self).subs@[i as int].id@ != sub_id@);
                }
            }
        }
        r
    }

    /// Releases pins of the addressed subscription, all or nothing; an
    /// unknown subscription succeeds silently.
    pub fn unpin(&mut self, sub_id: &String, hashes: &Vec<u64>) -> (r: Result<(), RpcError>)
        requires
            old(self).wf(),
        ensures
            final(self).wf(),
            final(self).client == old(self).client,
            final(self).budget.cap == old(self).budget.cap,
            no_live_sub(old(self).subs@, sub_id@) ==> r == Result::<(), RpcError>::Ok(())
                && *final(self) == *old(self),
            forall|i: int|
                live_sub_at(old(self).subs@, sub_id@, i) ==> {
                    &&& final(self).subs@ == old(self).subs@.update(i, final(self).subs@[i])
                    &&& unpin_spec(
                        old(self).subs@[i],
                        #[trigger] final(self).subs@[i],
                        old(self).budget.used as int,
                        final(self).budget.used as int,
                        hashes@,
                        r,
                    )
                },
    {
        let i = match self.find_sub(sub_id) {
            Some(i) => i,
            None => {
                return Ok(());
            },
        };
        proof {
            lemma_sum_pins_bound(self.subs@, i as int);
        }
        let ghost pre_subs = self.subs@;
        let client = &self.client;
        let sub = &mut self.subs[i];
        let r = sub.unpin(client, &mut self.budget, hashes);
        proof {
            lemma_sum_pins_update(pre_subs, i as int, self.subs@[i as int]);
            assert forall|j: int|
                live_sub_at(old(self).subs@, sub_id@, j) implies j == i as int by {
                Self::lemma_live_sub_unique(old(self).subs@, sub_id@, j, i as int);
            }
        }
        r
    }

    /// The hex-encoded header of a block pinned by the addressed
    /// subscription; an unknown subscription yields nothing.
    pub fn header(&self, sub_id: &String, h: u64) -> (r: Result<Option<String>, RpcError>)
        requires
            self.wf(),
        ensures
            no_live_sub(self.subs@, sub_id@) ==> r == Result::<Option<String>, RpcError>::Ok(
                None,
            ),
            forall|i: int|
                live_sub_at(self.subs@, sub_id@, i) ==> {
                    let sub = self.subs@[i];
                    &&& (sub.pinned(h) ==> (r matches Ok(v) && v matches Some(x) && x@
                        == crate::hexcodec::hex_str_of(#[trigger] self.client.chain()[h].header)))
                    &&& (!sub.pinned(h) ==> r == Result::<Option<String>, RpcError>::Err(
                        RpcError::InvalidBlock,
                    ))
                },
    {
        let i = match self.find_sub(sub_id) {
            Some(i) => i,
            None => {
                return Ok(None);
            },
        };
        proof {
            assert forall|j: int|
                live_sub_at(self.subs@, sub_id@, j) implies j == i as int by {
                Self::lemma_live_sub_unique(self.subs@, sub_id@, j, i as int);
            }
        }
        match self.subs[i].header(&self.client, h) {
            Ok(v) => Ok(Some(v)),
            Err(e) => Err(e),
        }
    }

    /// Starts a body fetch on the addressed subscription; an unknown
    /// subscription, and an exhausted operation counter, are
    /// admission-refused.
    pub fn body(&mut self, sub_id: &String, h: u64) -> (r: Result<MethodResponse, RpcError>)
        requires
            old(self).wf(),
        ensures
            final(self).wf(),
            final(self).client == old(self).client,
            final(self).budget == old(self).budget,
            no_live_sub(old(self).subs@, sub_id@) ==> r == Result::<MethodResponse, RpcError>::Ok(
                MethodResponse::LimitReached,
            ) && *final(self) == *old(self),
            forall|i: int|
                live_sub_at(old(self).subs@, sub_id@, i) ==> {
                    &&& final(self).subs@ == old(self).subs@.update(i, final(self).subs@[i])
                    &&& if old(self).subs@[i].next_op_seq == u64::MAX {
                        r == Result::<MethodResponse, RpcError>::Ok(MethodResponse::LimitReached)
                            && final(self).subs@[i] == old(self).subs@[i]
                    } else {
                        body_spec(
                            old(self).subs@[i],
                            #[trigger] final(self).subs@[i],
                            old(self).client.chain(),
                            h,
                            r,
                        )
                    }
                },
    {
        let i = match self.find_sub(sub_id) {
            Some(i) => i,
            None => {
                return Ok(MethodResponse::LimitReached);
            },
        };
        proof {
            assert forall|j: int|
                live_sub_at(old(self).subs@, sub_id@, j) implies j == i as int by {
                Self::lemma_live_sub_unique(old(self).subs@, sub_id@, j, i as int);
            }
            assert(self.subs@ =~= self.subs@.update(i as int, self.subs@[i as int]));
        }
        if self.subs[i].next_op_seq == u64::MAX {
            return Ok(MethodResponse::LimitReached);
        }
        let ghost pre_subs = self.subs@;
        let client = &self.client;
        let sub = &mut self.subs[i];
        let r = sub.body(client, h);
        proof {
            lemma_sum_pins_update(pre_subs, i as int, self.subs@[i as int]);
        }
        r
    }

    /// Starts a runtime call on the addressed subscription; an unknown
    /// subscription, and an exhausted operation counter, are
    /// admission-refused.
    pub fn call(
        &mut self,
        sub_id: &String,
        h: u64,
        method: &String,
        args_hex: &String,
    ) -> (r: Result<MethodResponse, RpcError>)
        requires
            old(self).wf(),
        ensures
            final(self).wf(),
            final(self).client == old(self).client,
            final(self).budget == old(self).budget,
            no_live_sub(old(self).subs@, sub_id@) ==> r == Result::<MethodResponse, RpcError>::Ok(
                MethodResponse::LimitReached,
            ) && *final(self) == *old(self),
            forall|i: int|
                live_sub_at(old(self).subs@, sub_id@, i) ==> {
                    &&& final(self).subs@ == old(self).subs@.update(i, final(self).subs@[i])
                    &&& if old(self).subs@[i].next_op_seq == u64::MAX {
                        r == Result::<MethodResponse, RpcError>::Ok(MethodResponse::LimitReached)
                            && final(self).subs@[i] == old(self).subs@[i]
                    } else {
                        call_spec(
                            old(self).subs@[i],
                            #[trigger] final(self).subs@[i],
                            old(self).client.chain(),
                            h,
                            method@,
                            args_hex@,
                            r,
                        )
                    }
                },
    {
        let i = match self.find_sub(sub_id) {
            Some(i) => i,
            None => {
                return Ok(MethodResponse::LimitReached);
            },
        };
        proof {
            assert forall|j: int|
                live_sub_at(old(self).subs@, sub_id@, j) implies j == i as int by {
                Self::lemma_live_sub_unique(old(self).subs@, sub_id@, j, i as int);
            }
            assert(self.subs@ =~= self.subs@.update(i as int, self.subs@[i as int]));
        }
        if self.subs[i].next_op_seq == u64::MAX {
            return Ok(MethodResponse::LimitReached);
        }
        let ghost pre_subs = self.subs@;
        let client = &self.client;
        let sub = &mut self.subs[i];
        let r = sub.call(client, h, method, args_hex);
        proof {
            lemma_sum_pins_update(pre_subs, i as int, self.subs@[i as int]);
        }
        r
    }

    /// Starts a storage traversal on the addressed subscription; an
    /// unknown subscription, and an exhausted operation counter, are
    /// admission-refused.
    pub fn storage(
        &mut self,
        sub_id: &String,
        h: u64,
        queries: Vec<DecodedQuery>,
        child: Option<Vec<u8>>,
    ) -> (r: Result<MethodResponse, RpcError>)
        requires
            old(self).wf(),
        ensures
            final(self).wf(),
            final(self).client == old(self).client,
            final(self).budget == old(self).budget,
            no_live_sub(old(self).subs@, sub_id@) ==> r == Result::<MethodResponse, RpcError>::Ok(
                MethodResponse::LimitReached,
            ) && *final(self) == *old(self),
            forall|i: int|
                live_sub_at(old(self).subs@, sub_id@, i) ==> {
                    &&& final(self).subs@ == old(self).subs@.update(i, final(self).subs@[i])
                    &&& if old(self).subs@[i].next_op_seq == u64::MAX {
                        r == Result::<MethodResponse, RpcError>::Ok(MethodResponse::LimitReached)
                            && final(self).subs@[i] == old(self).subs@[i]
                    } else {
                        crate::follow::storage_start_spec(
                            old(self).subs@[i],
                            #[trigger] final(self).subs@[i],
                            old(self).client.chain(),
                            h,
                            queries@,
                            crate::storage::opt_bytes_view(child),
                            r,
                        )
                    }
                },
    {
        let i = match self.find_sub(sub_id) {
            Some(i) => i,
            None => {
                return Ok(MethodResponse::LimitReached);
            },
        };
        proof {
            assert forall|j: int|
                live_sub_at(old(self).subs@, sub_id@, j) implies j == i as int by {
                Self::lemma_live_sub_unique(old(self).subs@, sub_id@, j, i as int);
            }
            assert(self.subs@ =~= self.subs@.update(i as int, self.subs@[i as int]));
        }
        if self.subs[i].next_op_seq == u64::MAX {
            return Ok(MethodResponse::LimitReached);
        }
        let ghost pre_subs = self.subs@;
        let client = &self.client;
        let sub = &mut self.subs[i];
        let r = sub.storage_start(client, h, queries, child);
        proof {
            lemma_sum_pins_update(pre_subs, i as int, self.subs@[i as int]);
        }
        r
    }

    /// Resumes a paused storage operation of the addressed subscription;
    /// unknown subscription or operation ids are silent no-ops.
    pub fn continue_op(&mut self, sub_id: &String, op_id: &String)
        requires
            old(self).wf(),
        ensures
            final(self).wf(),
            final(self).client == old(self).client,
            final(self).budget == old(self).budget,
            no_live_sub(old(self).subs@, sub_id@) ==> *final(self) == *old(self),
            forall|i: int|
                live_sub_at(old(self).subs@, sub_id@, i) ==> {
                    &&& final(self).subs@ == old(self).subs@.update(i, final(self).subs@[i])
                    &&& continue_op_spec(
                        old(self).subs@[i],
                        #[trigger] final(self).subs@[i],
                        old(self).client.chain(),
                        op_id@,
                    )
                },
    {
        let i = match self.find_sub(sub_id) {
            Some(i) => i,
            None => {
                return ;
            },
        };
        proof {
            assert forall|j: int|
                live_sub_at(old(self).subs@, sub_id@, j) implies j == i as int by {
                Self::lemma_live_sub_unique(old(self).subs@, sub_id@, j, i as int);
            }
        }
        let ghost pre_subs = self.subs@;
        let client = &self.client;
        let sub = &mut self.subs[i];
        sub.continue_op(client, op_id);
        proof {
            lemma_sum_pins_update(pre_subs, i as int, self.subs@[i as int]);
        }
    }

    /// Cancels a paused storage operation of the addressed subscription;
    /// unknown subscription or operation ids are silent no-ops.
    pub fn stop_operation(&mut self, sub_id: &String, op_id: &String)
        requires
            old(self).wf(),
        ensures
            final(self).wf(),
            final(self).client == old(self).client,
            final(self).budget == old(self).budget,
            no_live_sub(old(self).subs@, sub_id@) ==> *final(self) == *old(self),
            forall|i: int|
                live_sub_at(old(self).subs@, sub_id@, i) ==> {
                    &&& final(self).subs@ == old(self).subs@.update(i, final(self).subs@[i])
                    &&& stop_operation_spec(
                        old(self).subs@[i],
                        #[trigger] final(self).subs@[i],
                        op_id@,
                    )
                },
    {
        let i = match self.find_sub(sub_id) {
            Some(i) => i,
            None => {
                return ;
            },
        };
        proof {
            assert forall|j: int|
                live_sub_at(old(self).subs@, sub_id@, j) implies j == i as int by {
                Self::lemma_live_sub_unique(old(self).subs@, sub_id@, j, i as int);
            }
        }
        let ghost pre_subs = self.subs@;
        let client = &self.client;
        let sub = &mut self.subs[i];
        sub.stop_operation(client, op_id);
        proof {
            lemma_sum_pins_update(pre_subs, i as int, self.subs@[i as int]);
        }
    }

    /// The backend's pin reference count of a block: how many
    /// subscriptions pin it.
    pub fn pin_refs(&self, h: u64) -> (r: usize)
        requires
            self.wf(),
        ensures
            r as int == pin_count(self.subs@, h),
    {
        let mut count: usize = 0;
        let mut i: usize = 0;
        proof {
            assert(self.subs@.take(0) =~= Seq::<Subscription>::empty());
            assert(count as int == pin_count(self.subs@.take(0), h));
        }
        while i < self.subs.len()
            invariant
                self.wf(),
                i <= self.subs@.len(),
                count as int == pin_count(self.subs@.take(i as int), h),
                count <= i,
            decreases self.subs@.len() - i,
        {
            proof {
                assert(self.subs@.take(i as int + 1).drop_last() =~= self.subs@.take(i as int));
                assert(self.subs@.take(i as int + 1).last() == self.subs@[i as int]);
            }
            if self.subs[i].find_pin(h).is_some() {
                count = count + 1;
            }
            i = i + 1;
        }
        proof {
            assert(self.subs@.take(self.subs@.len() as int) =~= self.subs@);
        }
        count
    }
}

} // verus!
