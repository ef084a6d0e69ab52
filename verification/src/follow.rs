//! A follow subscription: the replicator state that turns import and
//! finality notifications into the ordered follow-event stream, the pin
//! registry that backs every advertised block, and the table of paused
//! storage operations. The ghost `history` holds every event ever emitted;
//! the invariants tie it to the advertised set, so that every hash an event
//! refers to was advertised earlier, `Initialized` comes first and only
//! once, and nothing follows `Stop`.

use vstd::prelude::*;

use crate::client::{BlockV, ClientModel};
use crate::decimal::dec_str;
use crate::events::{
    event_advertises, event_refs, events_view, EventV, FollowEvent, MethodResponse, RpcError,
};
use crate::storage::DecodedQuery;

verus! {

/// One pinned block: the hash and the tick at which it was pinned.
#[derive(Clone, Copy)]
pub struct PinnedBlock {
    pub hash: u64,
    pub inserted_at: u64,
}

/// One advertised block, and whether it was already reported pruned.
#[derive(Clone, Copy)]
pub struct AdvEntry {
    pub hash: u64,
    pub reported_pruned: bool,
}

/// A storage operation paused at a waiting-for-continue point.
pub struct StorageOp {
    pub seq: u64,
    pub id: String,
    pub block: u64,
    pub child: Option<Vec<u8>>,
    pub queries: Vec<DecodedQuery>,
    pub query_idx: usize,
    pub offset: usize,
    pub slots: usize,
}

/// The process-wide pin budget: how many pins all subscriptions hold
/// together, and the configured cap.
pub struct GlobalPins {
    pub used: usize,
    pub cap: usize,
}

/// The advertised set accumulated by an event sequence.
#[verifier::opaque]
pub open spec fn adv_after(h: Seq<EventV>, s: Set<u64>) -> Set<u64>
    decreases h.len(),
{
    if h.len() == 0 {
        s
    } else {
        adv_after(h.drop_first(), s + event_advertises(h[0]))
    }
}

/// Every event's referenced hashes were advertised by earlier events (or
/// were in the starting set).
#[verifier::opaque]
pub open spec fn refs_ok_from(h: Seq<EventV>, s: Set<u64>) -> bool
    decreases h.len(),
{
    if h.len() == 0 {
        true
    } else {
        event_refs(h[0]).subset_of(s) && refs_ok_from(h.drop_first(), s + event_advertises(h[0]))
    }
}

/// `Initialized` stands first and nowhere else.
pub open spec fn init_once_first(h: Seq<EventV>) -> bool {
    &&& (h.len() > 0 ==> h[0] is Initialized)
    &&& (forall|i: int| 0 < i < h.len() ==> !((#[trigger] h[i]) is Initialized))
}

/// Appending an event extends the advertised set by what it advertises.
pub proof fn lemma_adv_after_snoc(h: Seq<EventV>, s: Set<u64>, e: EventV)
    ensures
        adv_after(h.push(e), s) == adv_after(h, s) + event_advertises(e),
    decreases h.len(),
{
    reveal_with_fuel(adv_after, 2);
    let t = h.push(e);
    assert(t.len() > 0);
    if h.len() == 0 {
        assert(t[0] == e);
        assert(t.drop_first() =~= Seq::<EventV>::empty());
        assert(adv_after(t, s) == adv_after(t.drop_first(), s + event_advertises(t[0])));
        assert(adv_after(Seq::<EventV>::empty(), s + event_advertises(e)) == s + event_advertises(
            e,
        ));
        assert(adv_after(h, s) == s);
    } else {
        let s1 = s + event_advertises(h[0]);
        lemma_adv_after_snoc(h.drop_first(), s1, e);
        assert(t.drop_first() =~= h.drop_first().push(e));
        assert(t[0] == h[0]);
        assert(adv_after(t, s) == adv_after(t.drop_first(), s + event_advertises(t[0])));
        assert(adv_after(t, s) == adv_after(h.drop_first().push(e), s1));
        assert(adv_after(h.drop_first().push(e), s1) == adv_after(h.drop_first(), s1)
            + event_advertises(e));
        assert(adv_after(h, s) == adv_after(h.drop_first(), s1));
    }
}

/// Appending an event preserves reference discipline exactly when the new
/// event's references are already advertised.
pub proof fn lemma_refs_ok_snoc(h: Seq<EventV>, s: Set<u64>, e: EventV)
    ensures
        refs_ok_from(h.push(e), s) == (refs_ok_from(h, s) && event_refs(e).subset_of(
            adv_after(h, s),
        )),
    decreases h.len(),
{
    reveal_with_fuel(adv_after, 2);
    reveal_with_fuel(refs_ok_from, 2);
    let t = h.push(e);
    assert(t.len() > 0);
    if h.len() == 0 {
        assert(t[0] == e);
        assert(t.drop_first() =~= Seq::<EventV>::empty());
        assert(refs_ok_from(t, s) == (event_refs(e).subset_of(s) && refs_ok_from(
            Seq::<EventV>::empty(),
            s + event_advertises(e),
        )));
        assert(refs_ok_from(Seq::<EventV>::empty(), s + event_advertises(e)));
        assert(refs_ok_from(h, s));
        assert(adv_after(h, s) == s);
    } else {
        let s1 = s + event_advertises(h[0]);
        lemma_refs_ok_snoc(h.drop_first(), s1, e);
        assert(t.drop_first() =~= h.drop_first().push(e));
        assert(t[0] == h[0]);
        assert(refs_ok_from(t, s) == (event_refs(h[0]).subset_of(s) && refs_ok_from(
            h.drop_first().push(e),
            s1,
        )));
        assert(refs_ok_from(h.drop_first().push(e), s1) == (refs_ok_from(h.drop_first(), s1)
            && event_refs(e).subset_of(adv_after(h.drop_first(), s1))));
        assert(refs_ok_from(h, s) == (event_refs(h[0]).subset_of(s) && refs_ok_from(
            h.drop_first(),
            s1,
        )));
        assert(adv_after(h, s) == adv_after(h.drop_first(), s1));
    }
}

/// Skipping a prefix commutes with appending at the end.
pub proof fn lemma_skip_push<A>(s: Seq<A>, d: int, x: A)
    requires
        0 <= d <= s.len(),
    ensures
        s.push(x).skip(d) =~= s.skip(d).push(x),
{
}

/// The sum of admission slots held by paused operations.
pub open spec fn sum_slots(s: Seq<StorageOp>) -> int
    decreases s.len(),
{
    if s.len() == 0 {
        0
    } else {
        sum_slots(s.drop_last()) + s.last().slots
    }
}

/// The runtime carried by a `NewBlock` event: the block's runtime version
/// when the subscription reports runtimes and the version differs from the
/// parent's.
pub open spec fn new_rt(m: Map<u64, BlockV>, h: u64, wrt: bool) -> Option<u64> {
    if wrt && m[h].runtime_version != m[m[h].parent].runtime_version {
        Some(m[h].runtime_version)
    } else {
        None
    }
}

/// The `NewBlock` events a fresh subscription emits: one per strict
/// descendant of the finalized block, in the client's import order (a
/// topological order, parents before children).
pub open spec fn start_new_blocks(recs: Seq<BlockV>, m: Map<u64, BlockV>, f: u64, wrt: bool) -> Seq<
    EventV,
>
    decreases recs.len(),
{
    if recs.len() == 0 {
        Seq::empty()
    } else {
        start_new_blocks(recs.drop_last(), m, f, wrt) + (if crate::client::anc_or_eq(
            m,
            f,
            recs.last().hash,
        ) && recs.last().hash != f {
            seq![
                EventV::NewBlock {
                    hash: recs.last().hash,
                    parent_hash: recs.last().parent,
                    new_runtime: new_rt(m, recs.last().hash, wrt),
                    with_runtime: wrt,
                },
            ]
        } else {
            Seq::empty()
        })
    }
}

/// Whether an advertised block is displaced by finalizing a block of
/// height `n`: not yet reported pruned, not an ancestor of the new
/// finalized block, and without any descendant at height `n` or above.
#[verifier::opaque]
pub open spec fn displaced(m: Map<u64, BlockV>, a: AdvEntry, f: u64, n: u64) -> bool {
    &&& !a.reported_pruned
    &&& !crate::client::anc_or_eq(m, a.hash, f)
    &&& !(exists|x: u64|
        m.contains_key(x) && crate::client::anc_or_eq(m, a.hash, x) && #[trigger] m[x].number >= n)
}

/// The blocks reported pruned by a finality event, in advertisement order.
#[verifier::opaque]
pub open spec fn pruned_list(m: Map<u64, BlockV>, adv: Seq<AdvEntry>, f: u64, n: u64) -> Seq<u64>
    decreases adv.len(),
{
    if adv.len() == 0 {
        Seq::empty()
    } else {
        pruned_list(m, adv.drop_last(), f, n) + (if displaced(m, adv.last(), f, n) {
            seq![adv.last().hash]
        } else {
            Seq::empty()
        })
    }
}

/// No pruned block lies on the canonical chain: it is neither an ancestor
/// nor a descendant of the newly finalized block.
pub proof fn lemma_pruned_not_canonical(
    m: Map<u64, BlockV>,
    adv: Seq<AdvEntry>,
    f: u64,
    n: u64,
)
    requires
        m.contains_key(f),
        m[f].number == n,
    ensures
        forall|i: int|
            0 <= i < pruned_list(m, adv, f, n).len() ==> {
                let x = #[trigger] pruned_list(m, adv, f, n)[i];
                &&& !crate::client::anc_or_eq(m, x, f)
                &&& !crate::client::anc_or_eq(m, f, x)
            },
    decreases adv.len(),
{
    reveal_with_fuel(pruned_list, 2);
    reveal(displaced);
    if adv.len() > 0 {
        lemma_pruned_not_canonical(m, adv.drop_last(), f, n);
        let p = pruned_list(m, adv, f, n);
        let q = pruned_list(m, adv.drop_last(), f, n);
        assert forall|i: int| 0 <= i < p.len() implies {
            let x = #[trigger] p[i];
            &&& !crate::client::anc_or_eq(m, x, f)
            &&& !crate::client::anc_or_eq(m, f, x)
        } by {
            if i < q.len() {
                assert(p[i] == q[i]);
            } else {
                let a = adv.last();
                assert(displaced(m, a, f, n));
                assert(p[i] == a.hash);
                if crate::client::anc_or_eq(m, f, a.hash) {
                    // A descendant of the finalized block reaches height n
                    // itself, so it cannot be displaced.
                    if f != a.hash {
                        crate::client::lemma_anc_number(m, f, a.hash);
                    }
                    assert(m.contains_key(a.hash) && crate::client::anc_or_eq(m, a.hash, a.hash)
                        && m[a.hash].number >= n);
                    assert(false);
                }
            }
        }
    }
}

/// The events synthesized while walking the finalized path: a `NewBlock`
/// for every path block not yet advertised when the walk began, in path
/// order, each followed by a `BestBlockChanged` when the block is the
/// client's current best.
#[verifier::opaque]
pub open spec fn synth_events(
    m: Map<u64, BlockV>,
    path: Seq<u64>,
    adv0: Set<u64>,
    cbest: u64,
    wrt: bool,
) -> Seq<EventV>
    decreases path.len(),
{
    if path.len() == 0 {
        Seq::empty()
    } else {
        synth_events(m, path.drop_last(), adv0, cbest, wrt) + (if adv0.contains(path.last()) {
            Seq::empty()
        } else {
            seq![
                EventV::NewBlock {
                    hash: path.last(),
                    parent_hash: m[path.last()].parent,
                    new_runtime: new_rt(m, path.last(), wrt),
                    with_runtime: wrt,
                },
            ] + (if path.last() == cbest {
                seq![EventV::BestBlockChanged { hash: cbest }]
            } else {
                Seq::empty()
            })
        })
    }
}

/// How many path blocks were not advertised when the walk began: the
/// pins a finality report needs from the budget.
pub open spec fn fresh_count(path: Seq<u64>, adv0: Set<u64>) -> int
    decreases path.len(),
{
    if path.len() == 0 {
        0
    } else {
        fresh_count(path.drop_last(), adv0) + (if adv0.contains(path.last()) {
            0int
        } else {
            1int
        })
    }
}

/// A prefix never needs more pins than the whole path.
proof fn lemma_fresh_count_take_le(path: Seq<u64>, adv0: Set<u64>, k: int)
    requires
        0 <= k <= path.len(),
    ensures
        fresh_count(path.take(k), adv0) <= fresh_count(path, adv0),
        fresh_count(path.take(k), adv0) >= 0,
    decreases path.len(),
{
    if k == path.len() {
        assert(path.take(k) =~= path);
        lemma_fresh_count_nonneg(path.take(k), adv0);
    } else {
        assert(path.take(k) =~= path.drop_last().take(k));
        lemma_fresh_count_take_le(path.drop_last(), adv0, k);
    }
}

/// Needed pins are never negative.
proof fn lemma_fresh_count_nonneg(path: Seq<u64>, adv0: Set<u64>)
    ensures
        fresh_count(path, adv0) >= 0,
    decreases path.len(),
{
    if path.len() > 0 {
        lemma_fresh_count_nonneg(path.drop_last(), adv0);
    }
}

/// The pruned report of a split advertisement log is the report of its
/// halves, in order.
pub proof fn lemma_pruned_list_concat(
    m: Map<u64, BlockV>,
    a: Seq<AdvEntry>,
    b: Seq<AdvEntry>,
    f: u64,
    n: u64,
)
    ensures
        pruned_list(m, a + b, f, n) == pruned_list(m, a, f, n) + pruned_list(m, b, f, n),
    decreases b.len(),
{
    reveal_with_fuel(pruned_list, 2);
    if b.len() == 0 {
        assert(a + b =~= a);
        assert(pruned_list(m, b, f, n) =~= Seq::<u64>::empty());
        assert(pruned_list(m, a, f, n) + pruned_list(m, b, f, n) =~= pruned_list(m, a, f, n));
    } else {
        lemma_pruned_list_concat(m, a, b.drop_last(), f, n);
        assert((a + b).drop_last() =~= a + b.drop_last());
        assert((a + b).last() == b.last());
        assert(pruned_list(m, a, f, n) + (pruned_list(m, b.drop_last(), f, n) + (if displaced(
            m,
            b.last(),
            f,
            n,
        ) {
            seq![b.last().hash]
        } else {
            Seq::empty()
        })) =~= (pruned_list(m, a, f, n) + pruned_list(m, b.drop_last(), f, n)) + (if displaced(
            m,
            b.last(),
            f,
            n,
        ) {
            seq![b.last().hash]
        } else {
            Seq::empty()
        }));
    }
}

/// An advertisement log whose every entry is an ancestor of the finalized
/// block reports nothing pruned.
pub proof fn lemma_pruned_list_ancestors(m: Map<u64, BlockV>, adv: Seq<AdvEntry>, f: u64, n: u64)
    requires
        forall|i: int|
            0 <= i < adv.len() ==> crate::client::anc_or_eq(m, (#[trigger] adv[i]).hash, f),
    ensures
        pruned_list(m, adv, f, n) == Seq::<u64>::empty(),
    decreases adv.len(),
{
    reveal_with_fuel(pruned_list, 2);
    reveal(displaced);
    if adv.len() > 0 {
        lemma_pruned_list_ancestors(m, adv.drop_last(), f, n);
        assert(crate::client::anc_or_eq(m, adv[adv.len() - 1].hash, f));
        assert(!displaced(m, adv.last(), f, n));
        assert(pruned_list(m, adv, f, n) =~= Seq::<u64>::empty());
    }
}

/// A prefix of the import order yields no more start events than the whole.
pub proof fn lemma_start_new_blocks_take_le(
    recs: Seq<BlockV>,
    m: Map<u64, BlockV>,
    f: u64,
    wrt: bool,
    i: int,
)
    requires
        0 <= i <= recs.len(),
    ensures
        start_new_blocks(recs.take(i), m, f, wrt).len() <= start_new_blocks(recs, m, f, wrt).len(),
    decreases recs.len(),
{
    if i == recs.len() {
        assert(recs.take(i) =~= recs);
    } else {
        assert(recs.take(i) =~= recs.drop_last().take(i));
        lemma_start_new_blocks_take_le(recs.drop_last(), m, f, wrt, i);
    }
}

/// The pin and advertisement state of a fresh subscription after the
/// first `i` records of the import order were examined: the finalized
/// block and the strict descendants seen so far, and nothing else, are
/// pinned, and the advertised set equals the pinned set.
#[verifier::opaque]
pub open spec fn initial_window(
    sub: Subscription,
    recs: Seq<BlockV>,
    m: Map<u64, BlockV>,
    f: u64,
    i: int,
) -> bool {
    &&& sub.pinned(f)
    &&& (forall|x: u64|
        #[trigger] sub.pinned(x) ==> m.contains_key(x) && crate::client::anc_or_eq(m, f, x) && (x
            == f || exists|j: int| 0 <= j < i && (#[trigger] recs[j]).hash == x))
    &&& (forall|j: int|
        0 <= j < i && crate::client::anc_or_eq(m, f, (#[trigger] recs[j]).hash) && recs[j].hash
            != f ==> sub.pinned(recs[j].hash))
    &&& (forall|x: u64| sub.adv_contains(x) == sub.pinned(x))
}

/// A subscription that pinned and advertised only the finalized block is
/// in the initial window at position zero.
proof fn lemma_window_init(sub: Subscription, recs: Seq<BlockV>, m: Map<u64, BlockV>, f: u64)
    requires
        sub.pins@.len() == 1,
        sub.pins@[0].hash == f,
        sub.advertised@.len() == 1,
        sub.advertised@[0].hash == f,
        m.contains_key(f),
    ensures
        initial_window(sub, recs, m, f, 0),
{
    reveal(initial_window);
    assert(sub.pinned(f));
    assert forall|x: u64| #[trigger] sub.pinned(x) implies m.contains_key(x)
        && crate::client::anc_or_eq(m, f, x) && (x == f || exists|j: int|
        0 <= j < 0 && (#[trigger] recs[j]).hash == x) by {
        let pi = choose|pi: int| 0 <= pi < sub.pins@.len() && (#[trigger] sub.pins@[pi]).hash == x;
        assert(pi == 0);
        assert(x == f);
    }
    assert forall|x: u64| sub.adv_contains(x) == sub.pinned(x) by {
        if sub.adv_contains(x) {
            let ai = choose|ai: int|
                0 <= ai < sub.advertised@.len() && (#[trigger] sub.advertised@[ai]).hash == x;
            assert(ai == 0);
            assert(sub.pins@[0].hash == x);
        }
        if sub.pinned(x) {
            let pi = choose|pi: int|
                0 <= pi < sub.pins@.len() && (#[trigger] sub.pins@[pi]).hash == x;
            assert(pi == 0);
            assert(sub.advertised@[0].hash == x);
        }
    }
}

/// A record that is not a fresh strict descendant advances the window
/// without any change of state.
proof fn lemma_window_skip(
    sub: Subscription,
    recs: Seq<BlockV>,
    m: Map<u64, BlockV>,
    f: u64,
    i: int,
)
    requires
        0 <= i < recs.len(),
        initial_window(sub, recs, m, f, i),
        !(crate::client::anc_or_eq(m, f, recs[i].hash) && recs[i].hash != f),
    ensures
        initial_window(sub, recs, m, f, i + 1),
{
    reveal(initial_window);
    assert forall|x: u64| #[trigger] sub.pinned(x) implies m.contains_key(x)
        && crate::client::anc_or_eq(m, f, x) && (x == f || exists|j: int|
        0 <= j < i + 1 && (#[trigger] recs[j]).hash == x) by {
        if x != f {
            let j = choose|j: int| 0 <= j < i && (#[trigger] recs[j]).hash == x;
            assert(0 <= j < i + 1 && recs[j].hash == x);
        }
    }
    assert forall|j: int|
        0 <= j < i + 1 && crate::client::anc_or_eq(m, f, (#[trigger] recs[j]).hash) && recs[j].hash
            != f implies sub.pinned(recs[j].hash) by {
        if j == i {
            assert(false);
        }
    }
}

/// The block at position `i` of the window is fresh when it is a strict
/// descendant: distinct hashes mean it cannot be pinned yet.
proof fn lemma_window_fresh(
    sub: Subscription,
    recs: Seq<BlockV>,
    m: Map<u64, BlockV>,
    f: u64,
    i: int,
)
    requires
        0 <= i < recs.len(),
        initial_window(sub, recs, m, f, i),
        recs[i].hash != f,
        forall|a: int, b: int|
            0 <= a < b < recs.len() ==> (#[trigger] recs[a]).hash != (#[trigger] recs[b]).hash,
    ensures
        !sub.pinned(recs[i].hash),
        !sub.adv_contains(recs[i].hash),
{
    reveal(initial_window);
    if sub.pinned(recs[i].hash) {
        let j = choose|j: int| 0 <= j < i && (#[trigger] recs[j]).hash == recs[i].hash;
        assert(recs[j].hash == recs[i].hash);
    }
}

/// The parent of a strict descendant at position `i` is advertised: it is
/// the finalized block or an earlier strict descendant.
proof fn lemma_window_parent(
    sub: Subscription,
    recs: Seq<BlockV>,
    m: Map<u64, BlockV>,
    f: u64,
    i: int,
    j: int,
)
    requires
        initial_window(sub, recs, m, f, i),
        recs[i].parent == f || (0 <= j < i && recs[j].hash == recs[i].parent
            && crate::client::anc_or_eq(m, f, recs[i].parent)),
    ensures
        sub.adv_contains(recs[i].parent),
        sub.pinned(recs[i].parent),
{
    reveal(initial_window);
    if recs[i].parent != f {
        assert(recs[j].hash == recs[i].parent);
        assert(sub.pinned(recs[j].hash));
    }
}

/// Pinning and advertising the strict descendant at position `i` advances
/// the window by one.
proof fn lemma_window_hit(
    pre: Subscription,
    post: Subscription,
    recs: Seq<BlockV>,
    m: Map<u64, BlockV>,
    f: u64,
    i: int,
    now: u64,
)
    requires
        0 <= i < recs.len(),
        initial_window(pre, recs, m, f, i),
        m.contains_key(recs[i].hash),
        crate::client::anc_or_eq(m, f, recs[i].hash),
        recs[i].hash != f,
        post.pins@ == pre.pins@.push(PinnedBlock { hash: recs[i].hash, inserted_at: now }),
        post.advertised@ == pre.advertised@.push(
            AdvEntry { hash: recs[i].hash, reported_pruned: false },
        ),
    ensures
        initial_window(post, recs, m, f, i + 1),
{
    reveal(initial_window);
    let h = recs[i].hash;
    Subscription::lemma_pinned_push(pre, post, PinnedBlock { hash: h, inserted_at: now });
    assert(post.pinned(f));
    assert forall|x: u64| #[trigger] post.pinned(x) implies m.contains_key(x)
        && crate::client::anc_or_eq(m, f, x) && (x == f || exists|j: int|
        0 <= j < i + 1 && (#[trigger] recs[j]).hash == x) by {
        if x == h {
            assert(recs[i].hash == x);
        } else {
            assert(pre.pinned(x));
            if x != f {
                let j = choose|j: int| 0 <= j < i && (#[trigger] recs[j]).hash == x;
                assert(recs[j].hash == x);
            }
        }
    }
    assert forall|j: int|
        0 <= j < i + 1 && crate::client::anc_or_eq(m, f, (#[trigger] recs[j]).hash) && recs[j].hash
            != f implies post.pinned(recs[j].hash) by {
        if j < i {
            assert(pre.pinned(recs[j].hash));
        } else {
            assert(recs[j].hash == h);
        }
    }
    assert forall|x: u64| post.adv_contains(x) == post.pinned(x) by {
        if post.adv_contains(x) {
            let ai = choose|ai: int|
                0 <= ai < post.advertised@.len() && (#[trigger] post.advertised@[ai]).hash == x;
            if ai < post.advertised@.len() - 1 {
                assert(pre.advertised@[ai].hash == x);
                assert(pre.adv_contains(x));
                assert(pre.pinned(x));
            } else {
                assert(x == h);
            }
        }
        if post.pinned(x) {
            if x == h {
                assert(post.advertised@[post.advertised@.len() - 1].hash == x);
            } else {
                assert(pre.pinned(x));
                assert(pre.adv_contains(x));
                let ai = choose|ai: int|
                    0 <= ai < pre.advertised@.len() && (#[trigger] pre.advertised@[ai]).hash == x;
                assert(post.advertised@[ai].hash == x);
            }
        }
    }
}

/// Facts the window gives about every pinned and advertised entry.
proof fn lemma_window_entries(
    sub: Subscription,
    recs: Seq<BlockV>,
    m: Map<u64, BlockV>,
    f: u64,
    i: int,
)
    requires
        initial_window(sub, recs, m, f, i),
    ensures
        sub.pinned(f),
        sub.adv_contains(f),
        forall|pi: int|
            0 <= pi < sub.pins@.len() ==> m.contains_key((#[trigger] sub.pins@[pi]).hash)
                && sub.adv_contains(sub.pins@[pi].hash),
        forall|ai: int|
            0 <= ai < sub.advertised@.len() ==> m.contains_key(
                (#[trigger] sub.advertised@[ai]).hash,
            ),
        forall|x: u64| #[trigger] sub.adv_contains(x) ==> m.contains_key(x),
{
    reveal(initial_window);
    assert forall|pi: int| 0 <= pi < sub.pins@.len() implies m.contains_key(
        (#[trigger] sub.pins@[pi]).hash,
    ) && sub.adv_contains(sub.pins@[pi].hash) by {
        assert(sub.pinned(sub.pins@[pi].hash));
    }
    assert forall|ai: int| 0 <= ai < sub.advertised@.len() implies m.contains_key(
        (#[trigger] sub.advertised@[ai]).hash,
    ) by {
        assert(sub.adv_contains(sub.advertised@[ai].hash));
        assert(sub.pinned(sub.advertised@[ai].hash));
    }
}

/// The window predicate depends only on the pin and advertisement logs.
proof fn lemma_window_same(
    a: Subscription,
    b: Subscription,
    recs: Seq<BlockV>,
    m: Map<u64, BlockV>,
    f: u64,
    i: int,
)
    requires
        initial_window(a, recs, m, f, i),
        a.pins@ == b.pins@,
        a.advertised@ == b.advertised@,
    ensures
        initial_window(b, recs, m, f, i),
{
    reveal(initial_window);
    Subscription::lemma_pinned_same(a, b);
    assert forall|x: u64| b.adv_contains(x) == b.pinned(x) by {
        Subscription::lemma_adv_set_same(a, b);
        assert(a.adv_set().contains(x) == a.adv_contains(x));
        assert(b.adv_set().contains(x) == b.adv_contains(x));
    }
    assert forall|x: u64| #[trigger] b.pinned(x) implies m.contains_key(x)
        && crate::client::anc_or_eq(m, f, x) && (x == f || exists|j: int|
        0 <= j < i && (#[trigger] recs[j]).hash == x) by {
        assert(a.pinned(x));
    }
    assert forall|j: int|
        0 <= j < i && crate::client::anc_or_eq(m, f, (#[trigger] recs[j]).hash) && recs[j].hash
            != f implies b.pinned(recs[j].hash) by {
        assert(a.pinned(recs[j].hash));
    }
}

/// The pin and advertisement state while walking the finalized path: after
/// the first `k` path blocks, the advertised set grew by exactly those
/// blocks, the reported best switched to the client's best if it was
/// freshly announced, and every pin is advertised and known.
#[verifier::opaque]
pub open spec fn fin_window(
    sub: Subscription,
    m: Map<u64, BlockV>,
    pathv: Seq<u64>,
    adv0: Set<u64>,
    cbest: u64,
    best0: u64,
    lf: u64,
    k: int,
) -> bool {
    &&& sub.adv_set() == adv0 + pathv.take(k).to_set()
    &&& sub.best == (if pathv.take(k).contains(cbest) && !adv0.contains(cbest) {
        cbest
    } else {
        best0
    })
    &&& (forall|j: int| 0 <= j < k ==> sub.adv_contains(#[trigger] pathv[j]))
    &&& (forall|x: u64| #[trigger] sub.adv_contains(x) ==> m.contains_key(x))
    &&& (forall|i: int|
        0 <= i < sub.pins@.len() ==> m.contains_key((#[trigger] sub.pins@[i]).hash)
            && sub.adv_contains(sub.pins@[i].hash))
    &&& sub.adv_contains(lf)
    &&& sub.adv_contains(sub.best)
    &&& sub.last_finalized == lf
}

/// A subscription whose invariant holds starts the finality walk in the
/// window at position zero.
proof fn lemma_fin_window_init(
    sub: Subscription,
    m: Map<u64, BlockV>,
    pathv: Seq<u64>,
    cbest: u64,
)
    requires
        sub.inv(m),
    ensures
        fin_window(sub, m, pathv, sub.adv_set(), cbest, sub.best, sub.last_finalized, 0),
{
    reveal(fin_window);
    assert(pathv.take(0) =~= Seq::<u64>::empty());
    assert(pathv.take(0).to_set() =~= Set::<u64>::empty());
    assert(sub.adv_set() + pathv.take(0).to_set() =~= sub.adv_set());
    assert forall|x: u64| #[trigger] sub.adv_contains(x) implies m.contains_key(x) by {
        let i = choose|i: int|
            0 <= i < sub.advertised@.len() && (#[trigger] sub.advertised@[i]).hash == x;
    }
    assert(sub.adv_contains(sub.last_finalized));
    assert(sub.adv_contains(sub.best));
}

/// The window only reads the pin log, the advertisement log, the best
/// block and the reported finalized block.
proof fn lemma_fin_window_same(
    a: Subscription,
    b: Subscription,
    m: Map<u64, BlockV>,
    pathv: Seq<u64>,
    adv0: Set<u64>,
    cbest: u64,
    best0: u64,
    lf: u64,
    k: int,
)
    requires
        fin_window(a, m, pathv, adv0, cbest, best0, lf, k),
        a.pins@ == b.pins@,
        a.advertised@ == b.advertised@,
        a.best == b.best,
        a.last_finalized == b.last_finalized,
    ensures
        fin_window(b, m, pathv, adv0, cbest, best0, lf, k),
{
    reveal(fin_window);
    Subscription::lemma_pinned_same(a, b);
    Subscription::lemma_adv_set_same(a, b);
    assert forall|x: u64| a.adv_contains(x) == b.adv_contains(x) by {
        assert(a.adv_set().contains(x) == a.adv_contains(x));
        assert(b.adv_set().contains(x) == b.adv_contains(x));
    }
    assert forall|j: int| 0 <= j < k implies b.adv_contains(#[trigger] pathv[j]) by {
        assert(a.adv_contains(pathv[j]));
    }
    assert forall|x: u64| #[trigger] b.adv_contains(x) implies m.contains_key(x) by {
        assert(a.adv_contains(x));
    }
    assert forall|i: int| 0 <= i < b.pins@.len() implies m.contains_key(
        (#[trigger] b.pins@[i]).hash,
    ) && b.adv_contains(b.pins@[i].hash) by {
        assert(a.pins@[i] == b.pins@[i]);
        assert(a.adv_contains(a.pins@[i].hash));
    }
}

/// An already-advertised path block advances the window without change;
/// its advertisement must predate the walk, since path blocks differ.
#[verifier::rlimit(100)]
proof fn lemma_fin_window_skip(
    sub: Subscription,
    m: Map<u64, BlockV>,
    pathv: Seq<u64>,
    adv0: Set<u64>,
    cbest: u64,
    best0: u64,
    lf: u64,
    k: int,
)
    requires
        0 <= k < pathv.len(),
        fin_window(sub, m, pathv, adv0, cbest, best0, lf, k),
        sub.adv_contains(pathv[k]),
        forall|i: int|
            0 <= i < pathv.len() ==> m.contains_key(#[trigger] pathv[i]) && m[pathv[i]].number
                == m[lf].number + 1 + i,
    ensures
        adv0.contains(pathv[k]),
        fin_window(sub, m, pathv, adv0, cbest, best0, lf, k + 1),
{
    reveal(fin_window);
    let p = pathv[k];
    assert(adv0.contains(p)) by {
        assert(sub.adv_set().contains(p));
        if !adv0.contains(p) {
            let j = choose|j: int|
                0 <= j < pathv.take(k).len() && (#[trigger] pathv.take(k)[j]) == p;
            assert(m[pathv[j]].number == m[lf].number + 1 + j);
            assert(m[pathv[k]].number == m[lf].number + 1 + k);
        }
    }
    assert(sub.adv_set() =~= adv0 + pathv.take(k + 1).to_set()) by {
        assert forall|x: u64|
            pathv.take(k + 1).to_set().contains(x) implies (adv0 + pathv.take(
            k,
        ).to_set()).contains(x) by {
            let j = choose|j: int|
                0 <= j < pathv.take(k + 1).len() && (#[trigger] pathv.take(k + 1)[j]) == x;
            if j < k {
                assert(pathv.take(k)[j] == x);
            } else {
                assert(x == p);
            }
        }
        assert forall|x: u64|
            (adv0 + pathv.take(k).to_set()).contains(x) implies (adv0 + pathv.take(
            k + 1,
        ).to_set()).contains(x) by {
            if pathv.take(k).to_set().contains(x) {
                let j = choose|j: int|
                    0 <= j < pathv.take(k).len() && (#[trigger] pathv.take(k)[j]) == x;
                assert(pathv.take(k + 1)[j] == x);
            }
        }
    }
    assert(sub.best == (if pathv.take(k + 1).contains(cbest) && !adv0.contains(cbest) {
        cbest
    } else {
        best0
    })) by {
        if pathv.take(k + 1).contains(cbest) && !adv0.contains(cbest) {
            let j = choose|j: int|
                0 <= j < pathv.take(k + 1).len() && (#[trigger] pathv.take(k + 1)[j]) == cbest;
            if j < k {
                assert(pathv.take(k)[j] == cbest);
            } else {
                assert(p == cbest);
                assert(false);
            }
        }
        if pathv.take(k).contains(cbest) {
            let j = choose|j: int|
                0 <= j < pathv.take(k).len() && (#[trigger] pathv.take(k)[j]) == cbest;
            assert(pathv.take(k + 1)[j] == cbest);
        }
    }
}

/// Pinning and announcing a fresh path block advances the window by one.
#[verifier::rlimit(100)]
proof fn lemma_fin_window_hit(
    pre: Subscription,
    post: Subscription,
    m: Map<u64, BlockV>,
    pathv: Seq<u64>,
    adv0: Set<u64>,
    cbest: u64,
    best0: u64,
    lf: u64,
    k: int,
    now: u64,
)
    requires
        0 <= k < pathv.len(),
        fin_window(pre, m, pathv, adv0, cbest, best0, lf, k),
        !pre.adv_contains(pathv[k]),
        m.contains_key(pathv[k]),
        post.pins@ == pre.pins@.push(PinnedBlock { hash: pathv[k], inserted_at: now }),
        post.advertised@ == pre.advertised@.push(
            AdvEntry { hash: pathv[k], reported_pruned: false },
        ),
        post.adv_set() == pre.adv_set().insert(pathv[k]),
        post.best == (if pathv[k] == cbest {
            cbest
        } else {
            pre.best
        }),
        post.last_finalized == pre.last_finalized,
    ensures
        !adv0.contains(pathv[k]),
        fin_window(post, m, pathv, adv0, cbest, best0, lf, k + 1),
{
    reveal(fin_window);
    let p = pathv[k];
    assert(!adv0.contains(p)) by {
        if adv0.contains(p) {
            assert(pre.adv_set().contains(p));
            assert(pre.adv_contains(p));
        }
    }
    assert(pre.adv_set().insert(p) =~= adv0 + pathv.take(k).to_set().insert(p));
    assert(post.adv_set() =~= adv0 + pathv.take(k + 1).to_set()) by {
        assert forall|x: u64| pathv.take(k + 1).to_set().contains(x) implies pathv.take(
            k,
        ).to_set().insert(p).contains(x) by {
            let j = choose|j: int|
                0 <= j < pathv.take(k + 1).len() && (#[trigger] pathv.take(k + 1)[j]) == x;
            if j < k {
                assert(pathv.take(k)[j] == x);
            }
        }
        assert forall|x: u64|
            pathv.take(k).to_set().insert(p).contains(x) implies pathv.take(
            k + 1,
        ).to_set().contains(x) by {
            if x == p {
                assert(pathv.take(k + 1)[k] == x);
            } else {
                let j = choose|j: int|
                    0 <= j < pathv.take(k).len() && (#[trigger] pathv.take(k)[j]) == x;
                assert(pathv.take(k + 1)[j] == x);
            }
        }
    }
    assert(post.best == (if pathv.take(k + 1).contains(cbest) && !adv0.contains(cbest) {
        cbest
    } else {
        best0
    })) by {
        if p == cbest {
            assert(pathv.take(k + 1)[k] == cbest);
            assert(pathv.take(k + 1).contains(cbest));
        } else {
            if pathv.take(k + 1).contains(cbest) {
                let j = choose|j: int|
                    0 <= j < pathv.take(k + 1).len() && (#[trigger] pathv.take(k + 1)[j]) == cbest;
                assert(j < k);
                assert(pathv.take(k)[j] == cbest);
            }
            if pathv.take(k).contains(cbest) {
                let j = choose|j: int|
                    0 <= j < pathv.take(k).len() && (#[trigger] pathv.take(k)[j]) == cbest;
                assert(pathv.take(k + 1)[j] == cbest);
            }
        }
    }
    assert forall|j: int| 0 <= j < k + 1 implies post.adv_contains(#[trigger] pathv[j]) by {
        assert(post.adv_set().contains(pathv[j]) == post.adv_contains(pathv[j]));
        if j < k {
            assert(pre.adv_set().contains(pathv[j]) == pre.adv_contains(pathv[j]));
            assert(pre.adv_contains(pathv[j]));
        }
    }
    assert forall|x: u64| #[trigger] post.adv_contains(x) implies m.contains_key(x) by {
        assert(post.adv_set().contains(x) == post.adv_contains(x));
        assert(pre.adv_set().contains(x) == pre.adv_contains(x));
        if x != p {
            assert(pre.adv_contains(x));
        }
    }
    assert forall|i: int| 0 <= i < post.pins@.len() implies m.contains_key(
        (#[trigger] post.pins@[i]).hash,
    ) && post.adv_contains(post.pins@[i].hash) by {
        assert(post.adv_set().contains(post.pins@[i].hash) == post.adv_contains(
            post.pins@[i].hash,
        ));
        if i < post.pins@.len() - 1 {
            assert(pre.pins@[i] == post.pins@[i]);
            assert(pre.adv_contains(pre.pins@[i].hash));
            assert(pre.adv_set().contains(post.pins@[i].hash));
        } else {
            assert(post.pins@[i].hash == p);
        }
    }
    assert(post.adv_contains(lf)) by {
        assert(post.adv_set().contains(lf) == post.adv_contains(lf));
        assert(pre.adv_set().contains(lf) == pre.adv_contains(lf));
    }
    assert(post.adv_contains(post.best)) by {
        assert(post.adv_set().contains(post.best) == post.adv_contains(post.best));
        if p != cbest {
            assert(pre.adv_set().contains(pre.best) == pre.adv_contains(pre.best));
        }
    }
}

/// One more path block extends the synthesized events by its share.
proof fn lemma_synth_snoc(
    m: Map<u64, BlockV>,
    pathv: Seq<u64>,
    adv0: Set<u64>,
    cbest: u64,
    wrt: bool,
    k: int,
)
    requires
        0 <= k < pathv.len(),
    ensures
        synth_events(m, pathv.take(k + 1), adv0, cbest, wrt) == synth_events(
            m,
            pathv.take(k),
            adv0,
            cbest,
            wrt,
        ) + (if adv0.contains(pathv[k]) {
            Seq::<EventV>::empty()
        } else {
            seq![
                EventV::NewBlock {
                    hash: pathv[k],
                    parent_hash: m[pathv[k]].parent,
                    new_runtime: new_rt(m, pathv[k], wrt),
                    with_runtime: wrt,
                },
            ] + (if pathv[k] == cbest {
                seq![EventV::BestBlockChanged { hash: cbest }]
            } else {
                Seq::<EventV>::empty()
            })
        }),
{
    reveal_with_fuel(synth_events, 2);
    assert(pathv.take(k + 1).drop_last() =~= pathv.take(k));
    assert(pathv.take(k + 1).last() == pathv[k]);
}

/// The whole bookkeeping of announcing one fresh path block: the window
/// advances, the emitted history matches the synthesized events, and the
/// advertisement log keeps its shape.
#[verifier::rlimit(100)]
proof fn lemma_fin_hit_all(
    pre: Subscription,
    post: Subscription,
    m: Map<u64, BlockV>,
    pathv: Seq<u64>,
    adv0: Set<u64>,
    cbest: u64,
    best0: u64,
    lf: u64,
    f: u64,
    orig_hist: Seq<EventV>,
    orig_adv: Seq<AdvEntry>,
    k: int,
    now: u64,
    wrt: bool,
)
    requires
        0 <= k < pathv.len(),
        crate::client::anc_or_eq(m, pathv[k], f),
        fin_window(pre, m, pathv, adv0, cbest, best0, lf, k),
        !pre.adv_contains(pathv[k]),
        m.contains_key(pathv[k]),
        pre.history@ == orig_hist + synth_events(m, pathv.take(k), adv0, cbest, wrt),
        orig_adv.len() <= pre.advertised@.len(),
        pre.advertised@.take(orig_adv.len() as int) == orig_adv,
        forall|j: int|
            orig_adv.len() <= j < pre.advertised@.len() ==> crate::client::anc_or_eq(
                m,
                (#[trigger] pre.advertised@[j]).hash,
                f,
            ),
        post.pins@ == pre.pins@.push(PinnedBlock { hash: pathv[k], inserted_at: now }),
        post.advertised@ == pre.advertised@.push(
            AdvEntry { hash: pathv[k], reported_pruned: false },
        ),
        post.adv_set() == pre.adv_set().insert(pathv[k]),
        post.best == (if pathv[k] == cbest {
            cbest
        } else {
            pre.best
        }),
        post.last_finalized == pre.last_finalized,
        post.history@ == pre.history@ + (seq![
            EventV::NewBlock {
                hash: pathv[k],
                parent_hash: m[pathv[k]].parent,
                new_runtime: new_rt(m, pathv[k], wrt),
                with_runtime: wrt,
            },
        ] + (if pathv[k] == cbest {
            seq![EventV::BestBlockChanged { hash: cbest }]
        } else {
            Seq::<EventV>::empty()
        })),
    ensures
        !adv0.contains(pathv[k]),
        fin_window(post, m, pathv, adv0, cbest, best0, lf, k + 1),
        post.history@ == orig_hist + synth_events(m, pathv.take(k + 1), adv0, cbest, wrt),
        orig_adv.len() <= post.advertised@.len(),
        post.advertised@.take(orig_adv.len() as int) == orig_adv,
        forall|j: int|
            orig_adv.len() <= j < post.advertised@.len() ==> crate::client::anc_or_eq(
                m,
                (#[trigger] post.advertised@[j]).hash,
                f,
            ),
{
    let p = pathv[k];
    lemma_fin_window_hit(pre, post, m, pathv, adv0, cbest, best0, lf, k, now);
    lemma_synth_snoc(m, pathv, adv0, cbest, wrt, k);
    assert(!adv0.contains(p)) by {
        reveal(fin_window);
        if adv0.contains(p) {
            assert(pre.adv_set().contains(p));
            assert(pre.adv_contains(p));
        }
    }
    assert(post.history@ =~= orig_hist + synth_events(m, pathv.take(k + 1), adv0, cbest, wrt));
    assert(post.advertised@.take(orig_adv.len() as int) =~= orig_adv);
    assert forall|j: int|
        orig_adv.len() <= j < post.advertised@.len() implies crate::client::anc_or_eq(
        m,
        (#[trigger] post.advertised@[j]).hash,
        f,
    ) by {
        if j < post.advertised@.len() - 1 {
            assert(pre.advertised@[j] == post.advertised@[j]);
        } else {
            assert(post.advertised@[j].hash == p);
        }
    }
}

/// Reassembles the subscription invariant from its parts, for handlers
/// that leave the operation table untouched.
proof fn lemma_inv_from_parts(sub: Subscription, orig: Subscription, m: Map<u64, BlockV>)
    requires
        orig.inv(m),
        sub.trace_inv(),
        sub.pins_distinct(),
        sub.adv_distinct(),
        sub.storage_ops == orig.storage_ops,
        sub.ops_in_flight == orig.ops_in_flight,
        sub.next_op_seq == orig.next_op_seq,
        sub.max_storage_items == orig.max_storage_items,
        sub.max_ops == orig.max_ops,
        forall|i: int|
            0 <= i < sub.pins@.len() ==> m.contains_key((#[trigger] sub.pins@[i]).hash)
                && sub.adv_contains(sub.pins@[i].hash),
        forall|x: u64| #[trigger] sub.adv_contains(x) ==> m.contains_key(x),
        sub.adv_contains(sub.last_finalized),
        sub.adv_contains(sub.best),
        sub.stopped ==> sub.pins@.len() == 0 && sub.storage_ops@.len() == 0 && sub.ops_in_flight
            == 0,
    ensures
        sub.inv(m),
{
    assert(m.contains_key(sub.last_finalized));
    assert(m.contains_key(sub.best));
    assert forall|ai: int| 0 <= ai < sub.advertised@.len() implies m.contains_key(
        (#[trigger] sub.advertised@[ai]).hash,
    ) by {
        assert(sub.adv_contains(sub.advertised@[ai].hash));
    }
    assert(sub.ops_inv(m)) by {
        assert(sum_slots(sub.storage_ops@) == sub.ops_in_flight as int);
        assert forall|i: int|
            0 <= i < sub.storage_ops@.len() implies {
                let op = #[trigger] sub.storage_ops@[i];
                &&& op.seq < sub.next_op_seq
                &&& op.id@ == dec_str(op.seq as nat)
                &&& m.contains_key(op.block)
                &&& op.slots >= 1
                &&& op.query_idx < op.queries@.len()
            } by {
            assert(orig.storage_ops@[i] == sub.storage_ops@[i]);
        }
    }
}

/// Appending only ancestors of the finalized block to the advertisement
/// log leaves the pruned report unchanged.
proof fn lemma_pruned_extension(
    m: Map<u64, BlockV>,
    a: Seq<AdvEntry>,
    b: Seq<AdvEntry>,
    f: u64,
    n: u64,
)
    requires
        a.len() <= b.len(),
        b.take(a.len() as int) == a,
        forall|j: int|
            a.len() <= j < b.len() ==> crate::client::anc_or_eq(m, (#[trigger] b[j]).hash, f),
    ensures
        pruned_list(m, b, f, n) == pruned_list(m, a, f, n),
{
    assert(b =~= a + b.skip(a.len() as int));
    lemma_pruned_list_concat(m, a, b.skip(a.len() as int), f, n);
    lemma_pruned_list_ancestors(m, b.skip(a.len() as int), f, n);
    assert(pruned_list(m, a, f, n) + Seq::<u64>::empty() =~= pruned_list(m, a, f, n));
}

/// The containment facts the window carries, spelled out.
proof fn lemma_fin_window_entries(
    sub: Subscription,
    m: Map<u64, BlockV>,
    pathv: Seq<u64>,
    adv0: Set<u64>,
    cbest: u64,
    best0: u64,
    lf: u64,
    k: int,
)
    requires
        fin_window(sub, m, pathv, adv0, cbest, best0, lf, k),
    ensures
        sub.adv_set() == adv0 + pathv.take(k).to_set(),
        forall|j: int| 0 <= j < k ==> sub.adv_contains(#[trigger] pathv[j]),
        forall|x: u64| #[trigger] sub.adv_contains(x) ==> m.contains_key(x),
        forall|i: int|
            0 <= i < sub.pins@.len() ==> m.contains_key((#[trigger] sub.pins@[i]).hash)
                && sub.adv_contains(sub.pins@[i].hash),
        sub.adv_contains(lf),
        sub.adv_contains(sub.best),
        sub.last_finalized == lf,
        sub.best == (if pathv.take(k).contains(cbest) && !adv0.contains(cbest) {
            cbest
        } else {
            best0
        }),
{
    reveal(fin_window);
}

/// One follow subscription.
pub struct Subscription {
    /// The subscription id handed to the client.
    pub id: String,
    /// Whether runtime information is reported with events.
    pub with_runtime: bool,
    /// Admission cap for concurrently ongoing operations.
    pub max_ops: usize,
    /// Pagination limit for storage items per batch.
    pub max_storage_items: usize,
    /// Ticks a block may stay pinned before the subscription is stopped.
    pub max_pinned_ticks: u64,
    /// The pinned blocks, in pin order.
    pub pins: Vec<PinnedBlock>,
    /// Every block ever advertised, in advertisement order.
    pub advertised: Vec<AdvEntry>,
    /// The operation counter; ids are its decimal values, from "0".
    pub next_op_seq: u64,
    /// Admission slots held by paused storage operations.
    pub ops_in_flight: usize,
    /// The paused storage operations.
    pub storage_ops: Vec<StorageOp>,
    /// The last finalized block this subscription reported.
    pub last_finalized: u64,
    /// The best block this subscription reported.
    pub best: u64,
    /// Whether the subscription was stopped.
    pub stopped: bool,
    /// Emitted events not yet polled by the subscriber.
    pub pending: Vec<FollowEvent>,
    /// Every event ever emitted, in order.
    pub history: Ghost<Seq<EventV>>,
    /// How many history events were already polled.
    pub delivered: Ghost<int>,
}

/// The effect of a body fetch: an unpinned hash is refused, a full
/// operation table is admission-refused, and otherwise the operation
/// starts under the next decimal id and completes at once with the
/// hex-encoded extrinsics.
pub open spec fn body_spec(
    pre: Subscription,
    post: Subscription,
    m: Map<u64, BlockV>,
    h: u64,
    r: Result<MethodResponse, RpcError>,
) -> bool {
    &&& (!pre.pinned(h) ==> r == Result::<MethodResponse, RpcError>::Err(RpcError::InvalidBlock)
        && post == pre)
    &&& (pre.pinned(h) && pre.ops_in_flight >= pre.max_ops ==> r == Result::<
        MethodResponse,
        RpcError,
    >::Ok(MethodResponse::LimitReached) && post == pre)
    &&& (pre.pinned(h) && pre.ops_in_flight < pre.max_ops ==> {
        &&& (r matches Ok(resp) && resp matches MethodResponse::Started {
            operation_id,
            discarded_items,
        } && operation_id@ == dec_str(pre.next_op_seq as nat) && discarded_items is None)
        &&& post.next_op_seq == pre.next_op_seq + 1
        &&& post.history@ == pre.history@.push(
            EventV::OperationBodyDone {
                operation_id: dec_str(pre.next_op_seq as nat),
                value: body_hex(m[h].body),
            },
        )
        &&& post == (Subscription {
            next_op_seq: post.next_op_seq,
            pending: post.pending,
            history: post.history,
            ..pre
        })
    })
}

/// The effect of a runtime call: refused without the runtime flag, on an
/// unpinned hash or malformed hex; admission-refused on a full table; and
/// otherwise the operation starts under the next decimal id and completes
/// at once with the outcome the block's runtime reports.
pub open spec fn call_spec(
    pre: Subscription,
    post: Subscription,
    m: Map<u64, BlockV>,
    h: u64,
    method: Seq<char>,
    args_hex: Seq<char>,
    r: Result<MethodResponse, RpcError>,
) -> bool {
    &&& (!pre.with_runtime ==> r == Result::<MethodResponse, RpcError>::Err(
        RpcError::InvalidRuntimeCall,
    ) && post == pre)
    &&& (pre.with_runtime && !pre.pinned(h) ==> r == Result::<MethodResponse, RpcError>::Err(
        RpcError::InvalidBlock,
    ) && post == pre)
    &&& (pre.with_runtime && pre.pinned(h) && !crate::hexcodec::is_hex_body(
        crate::hexcodec::strip_0x(args_hex),
    ) ==> r == Result::<MethodResponse, RpcError>::Err(RpcError::InvalidParam) && post == pre)
    &&& (pre.with_runtime && pre.pinned(h) && crate::hexcodec::is_hex_body(
        crate::hexcodec::strip_0x(args_hex),
    ) && pre.ops_in_flight >= pre.max_ops ==> r == Result::<MethodResponse, RpcError>::Ok(
        MethodResponse::LimitReached,
    ) && post == pre)
    &&& (pre.with_runtime && pre.pinned(h) && crate::hexcodec::is_hex_body(
        crate::hexcodec::strip_0x(args_hex),
    ) && pre.ops_in_flight < pre.max_ops ==> {
        let args = crate::hexcodec::bytes_of_hex(crate::hexcodec::strip_0x(args_hex));
        let id = dec_str(pre.next_op_seq as nat);
        &&& (r matches Ok(resp) && resp matches MethodResponse::Started {
            operation_id,
            discarded_items,
        } && operation_id@ == id && discarded_items is None)
        &&& post.next_op_seq == pre.next_op_seq + 1
        &&& post.history@ == pre.history@.push(
            match call_result(m[h].runtime_calls, method, args) {
                Some(Ok(out)) => EventV::OperationCallDone {
                    operation_id: id,
                    output: crate::hexcodec::hex_str_of(out),
                },
                Some(Err(e)) => EventV::OperationError { operation_id: id, error: e },
                None => EventV::OperationError {
                    operation_id: id,
                    error: "Execution failed: unknown entry point"@,
                },
            },
        )
        &&& post == (Subscription {
            next_op_seq: post.next_op_seq,
            pending: post.pending,
            history: post.history,
            ..pre
        })
    })
}

/// The effect of starting a storage operation: an unpinned hash is
/// refused, a full table is admission-refused; otherwise queries beyond
/// the pagination limit or the free slots are dropped from the tail and
/// reported discarded, the first traversal step runs at once, and a
/// paused traversal is parked with its cursor, holding one slot per
/// effective query.
pub open spec fn storage_start_spec(
    pre: Subscription,
    post: Subscription,
    m: Map<u64, BlockV>,
    h: u64,
    qs: Seq<DecodedQuery>,
    child: Option<Seq<u8>>,
    r: Result<MethodResponse, RpcError>,
) -> bool {
    &&& post == (Subscription {
        next_op_seq: post.next_op_seq,
        pending: post.pending,
        history: post.history,
        storage_ops: post.storage_ops,
        ops_in_flight: post.ops_in_flight,
        ..pre
    })
    &&& (!pre.pinned(h) ==> r == Result::<MethodResponse, RpcError>::Err(RpcError::InvalidBlock)
        && post == pre)
    &&& (pre.pinned(h) && pre.ops_in_flight >= pre.max_ops ==> r == Result::<
        MethodResponse,
        RpcError,
    >::Ok(MethodResponse::LimitReached) && post == pre)
    &&& (pre.pinned(h) && pre.ops_in_flight < pre.max_ops ==> {
        let avail = pre.max_ops - pre.ops_in_flight;
        let eff = vstd::math::min(
            qs.len() as int,
            vstd::math::min(pre.max_storage_items as int, avail as int),
        );
        let effq = crate::storage::queries_view(qs.take(eff).map_values(|q: DecodedQuery| q));
        let ent = crate::storage::resolved_entries(m[h], child);
        let id = dec_str(pre.next_op_seq as nat);
        let run = crate::storage::run_step(ent, effq, pre.max_storage_items as nat, id, 0, 0);
        &&& (r matches Ok(resp) && resp matches MethodResponse::Started {
            operation_id,
            discarded_items,
        } && operation_id@ == id && discarded_items == Some((qs.len() - eff) as usize))
        &&& post.next_op_seq == pre.next_op_seq + 1
        &&& post.history@ == pre.history@ + run.0
        &&& (run.1 is None ==> post.storage_ops@ == pre.storage_ops@ && post.ops_in_flight
            == pre.ops_in_flight)
        &&& (run.1 matches Some(c) ==> post.ops_in_flight == pre.ops_in_flight + eff
            && post.storage_ops@.len() == pre.storage_ops@.len() + 1 && ({
            let op = post.storage_ops@.last();
            &&& op.seq == pre.next_op_seq
            &&& op.block == h
            &&& op.query_idx == c.0
            &&& op.offset == c.1
            &&& op.slots == eff
        }))
    })
}

/// The effect of resuming a paused storage operation: an unknown id is a
/// silent no-op; otherwise one further traversal step runs and the
/// operation is parked again with the new cursor, or completed and
/// released.
pub open spec fn continue_op_spec(
    pre: Subscription,
    post: Subscription,
    m: Map<u64, BlockV>,
    id: Seq<char>,
) -> bool {
    &&& post == (Subscription {
        pending: post.pending,
        history: post.history,
        storage_ops: post.storage_ops,
        ops_in_flight: post.ops_in_flight,
        ..pre
    })
    &&& ((forall|j: int|
        0 <= j < pre.storage_ops@.len() ==> (#[trigger] pre.storage_ops@[j]).id@ != id)
        ==> post == pre)
    &&& (forall|i: int|
        (0 <= i < pre.storage_ops@.len() && (#[trigger] pre.storage_ops@[i]).id@ == id && (
        forall|j: int| 0 <= j < i ==> (#[trigger] pre.storage_ops@[j]).id@ != id)) ==> {
            let op = pre.storage_ops@[i];
            let ent = crate::storage::resolved_entries(
                m[op.block],
                crate::storage::opt_bytes_view(op.child),
            );
            let run = crate::storage::run_step(
                ent,
                crate::storage::queries_view(op.queries@),
                pre.max_storage_items as nat,
                op.id@,
                op.query_idx as int,
                op.offset as int,
            );
            &&& post.history@ == pre.history@ + run.0
            &&& (run.1 matches Some(c) ==> post.storage_ops@ == pre.storage_ops@.update(
                i,
                StorageOp { query_idx: c.0 as usize, offset: c.1 as usize, ..op },
            ) && post.ops_in_flight == pre.ops_in_flight)
            &&& (run.1 is None ==> post.storage_ops@ == pre.storage_ops@.remove(i)
                && post.ops_in_flight == pre.ops_in_flight - op.slots)
        })
}

/// The effect of cancelling a paused storage operation: an unknown id is
/// a silent no-op; otherwise the operation is dropped with no further
/// event and its slots are released.
pub open spec fn stop_operation_spec(pre: Subscription, post: Subscription, id: Seq<char>) -> bool {
    &&& post == (Subscription {
        storage_ops: post.storage_ops,
        ops_in_flight: post.ops_in_flight,
        ..pre
    })
    &&& ((forall|j: int|
        0 <= j < pre.storage_ops@.len() ==> (#[trigger] pre.storage_ops@[j]).id@ != id)
        ==> post == pre)
    &&& (forall|i: int|
        (0 <= i < pre.storage_ops@.len() && (#[trigger] pre.storage_ops@[i]).id@ == id && (
        forall|j: int| 0 <= j < i ==> (#[trigger] pre.storage_ops@[j]).id@ != id)) ==> {
            &&& post.storage_ops@ == pre.storage_ops@.remove(i)
            &&& post.ops_in_flight == pre.ops_in_flight - pre.storage_ops@[i].slots
        })
}

/// The effect of a batch unpin, all or nothing: it succeeds exactly when
/// every supplied hash is pinned, each once; on failure nothing changes;
/// on success exactly the supplied hashes are released, one budget slot
/// each.
pub open spec fn unpin_spec(
    pre: Subscription,
    post: Subscription,
    used0: int,
    used1: int,
    hashes: Seq<u64>,
    r: Result<(), RpcError>,
) -> bool {
    &&& (r is Ok <==> ((forall|i: int| 0 <= i < hashes.len() ==> pre.pinned(#[trigger] hashes[i]))
        && (forall|i: int, j: int|
        0 <= i < j < hashes.len() ==> #[trigger] hashes[i] != #[trigger] hashes[j])))
    &&& (r is Err ==> r == Result::<(), RpcError>::Err(RpcError::InvalidBlock) && post == pre
        && used1 == used0)
    &&& (r is Ok ==> {
        &&& (forall|x: u64| post.pinned(x) == (pre.pinned(x) && !hashes.contains(x)))
        &&& used1 == used0 - hashes.len()
        &&& post.pins@.len() == pre.pins@.len() - hashes.len()
        &&& post == (Subscription { pins: post.pins, ..pre })
        &&& post.pins_distinct()
    })
}

/// The effect of polling one event: the first undelivered event is handed
/// out and the delivery point advances; nothing else changes.
pub open spec fn poll_event_spec(
    pre: Subscription,
    post: Subscription,
    r: Option<FollowEvent>,
) -> bool {
    &&& post == (Subscription { pending: post.pending, delivered: post.delivered, ..pre })
    &&& (pre.pending@.len() == 0 ==> r is None && post == pre)
    &&& (pre.pending@.len() > 0 ==> {
        &&& r == Some(pre.pending@[0])
        &&& post.pending@ == pre.pending@.drop_first()
        &&& post.delivered@ == pre.delivered@ + 1
    })
}

/// The effect of stopping a subscription: the terminal `Stop` event is
/// emitted, every pin returns to the budget, and every paused operation
/// is dropped.
pub open spec fn stop_spec(
    pre: Subscription,
    post: Subscription,
    used0: int,
    used1: int,
) -> bool {
    &&& post.stopped
    &&& post.pins@.len() == 0
    &&& post.storage_ops@.len() == 0
    &&& post.ops_in_flight == 0
    &&& post.history@ == pre.history@.push(EventV::Stop)
    &&& post.pending@ == pre.pending@.push(FollowEvent::Stop)
    &&& post.id == pre.id
    &&& post.with_runtime == pre.with_runtime
    &&& post.max_ops == pre.max_ops
    &&& post.max_storage_items == pre.max_storage_items
    &&& post.max_pinned_ticks == pre.max_pinned_ticks
    &&& post.last_finalized == pre.last_finalized
    &&& post.best == pre.best
    &&& post.next_op_seq == pre.next_op_seq
    &&& post.delivered@ == pre.delivered@
    &&& post.advertised == pre.advertised
    &&& used1 == used0 - pre.pins@.len()
}

/// The state of a freshly opened subscription against the client: it
/// carries the requested flag and limits, reports `Initialized` first,
/// one `NewBlock` per strict descendant of the finalized block in import
/// order, and the best block; every advertised block is pinned out of the
/// budget, or, when the budget cannot hold them all, the subscription is
/// stopped immediately with nothing held.
pub open spec fn open_spec(
    r: Subscription,
    client: ClientModel,
    used0: int,
    used1: int,
    cap: int,
    id: Seq<char>,
    with_runtime: bool,
    max_ops: usize,
    max_storage_items: usize,
    max_pinned_ticks: u64,
) -> bool {
    let m = client.chain();
    let f = client.finalized;
    let cbest = client.best;
    let nbs = start_new_blocks(client.recs(), m, f, with_runtime);
    let init_ev = EventV::Initialized {
        finalized_hash: f,
        finalized_runtime: (if with_runtime {
            Some(m[f].runtime_version)
        } else {
            None
        }),
        with_runtime,
    };
    &&& r.id@ == id
    &&& r.with_runtime == with_runtime
    &&& r.max_ops == max_ops
    &&& r.max_storage_items == max_storage_items
    &&& r.max_pinned_ticks == max_pinned_ticks
    &&& r.next_op_seq == 0
    &&& r.storage_ops@.len() == 0
    &&& r.ops_in_flight == 0
    &&& r.delivered@ == 0
    &&& r.pending@.len() == r.history@.len()
    &&& used1 - used0 == r.pins@.len()
    &&& if nbs.len() + 1 <= cap - used0 {
        &&& !r.stopped
        &&& r.history@ == seq![init_ev] + nbs + (if cbest != f {
            seq![EventV::BestBlockChanged { hash: cbest }]
        } else {
            Seq::empty()
        })
        &&& r.last_finalized == f
        &&& r.best == cbest
        &&& (forall|x: u64|
            r.pinned(x) <==> (m.contains_key(x) && crate::client::anc_or_eq(m, f, x)))
        &&& used1 == used0 + nbs.len() + 1
    } else {
        &&& r.stopped
        &&& used1 == used0
        &&& (exists|k: int|
            0 <= k <= client.recs().len() && r.history@ == seq![init_ev] + start_new_blocks(
                client.recs().take(k),
                m,
                f,
                with_runtime,
            ) + seq![EventV::Stop])
    }
}

impl Subscription {


    /// Whether `x` is pinned here.
    pub open spec fn pinned(&self, x: u64) -> bool {
        exists|i: int| 0 <= i < self.pins@.len() && (#[trigger] self.pins@[i]).hash == x
    }

    /// Whether `x` was ever advertised here.
    pub open spec fn adv_contains(&self, x: u64) -> bool {
        exists|i: int| 0 <= i < self.advertised@.len() && (#[trigger] self.advertised@[i]).hash == x
    }

    /// The advertised set.
    pub open spec fn adv_set(&self) -> Set<u64> {
        Set::new(|x: u64| self.adv_contains(x))
    }

    pub open spec fn pins_distinct(&self) -> bool {
        forall|i: int, j: int|
            0 <= i < j < self.pins@.len() ==> (#[trigger] self.pins@[i]).hash != (
            #[trigger] self.pins@[j]).hash
    }

    pub open spec fn adv_distinct(&self) -> bool {
        forall|i: int, j: int|
            0 <= i < j < self.advertised@.len() ==> (#[trigger] self.advertised@[i]).hash != (
            #[trigger] self.advertised@[j]).hash
    }

    /// The event-stream invariant: references advertised before use,
    /// `Initialized` first and once, `Stop` terminal, and the pending queue
    /// is the undelivered suffix of the history.
    pub open spec fn trace_inv(&self) -> bool {
        &&& refs_ok_from(self.history@, Set::empty())
        &&& adv_after(self.history@, Set::empty()) == self.adv_set()
        &&& init_once_first(self.history@)
        &&& self.history@.len() > 0
        &&& (forall|i: int|
            0 <= i < self.history@.len() ==> ((#[trigger] self.history@[i]) is Stop ==> self.stopped
                && i == self.history@.len() - 1))
        &&& (self.stopped ==> self.history@.last() is Stop)
        &&& 0 <= self.delivered@
        &&& self.delivered@ + self.pending@.len() == self.history@.len()
        &&& events_view(self.pending@) == self.history@.skip(self.delivered@)
    }

    /// The paused-operation invariant: distinct live ids below the counter,
    /// cursors inside their query lists, slot accounting exact.
    pub open spec fn ops_inv(&self, m: Map<u64, BlockV>) -> bool {
        &&& (forall|i: int, j: int|
            0 <= i < j < self.storage_ops@.len() ==> (#[trigger] self.storage_ops@[i]).seq != (
            #[trigger] self.storage_ops@[j]).seq)
        &&& (forall|i: int|
            0 <= i < self.storage_ops@.len() ==> {
                let op = #[trigger] self.storage_ops@[i];
                &&& op.seq < self.next_op_seq
                &&& op.id@ == dec_str(op.seq as nat)
                &&& m.contains_key(op.block)
                &&& op.slots >= 1
                &&& op.query_idx < op.queries@.len()
            })
        &&& sum_slots(self.storage_ops@) == self.ops_in_flight as int
        &&& self.ops_in_flight <= self.max_ops
    }

    /// The whole subscription invariant against block map `m`.
    pub open spec fn inv(&self, m: Map<u64, BlockV>) -> bool {
        &&& self.max_storage_items >= 1
        &&& self.pins_distinct()
        &&& (forall|i: int|
            0 <= i < self.pins@.len() ==> m.contains_key((#[trigger] self.pins@[i]).hash)
                && self.adv_contains(self.pins@[i].hash))
        &&& self.adv_distinct()
        &&& (forall|i: int|
            0 <= i < self.advertised@.len() ==> m.contains_key(
                (#[trigger] self.advertised@[i]).hash,
            ))
        &&& self.trace_inv()
        &&& m.contains_key(self.last_finalized) && self.adv_contains(self.last_finalized)
        &&& m.contains_key(self.best) && self.adv_contains(self.best)
        &&& self.ops_inv(m)
        &&& (self.stopped ==> self.pins@.len() == 0 && self.storage_ops@.len() == 0
            && self.ops_in_flight == 0)
    }

    /// Subscriptions with the same advertisement log advertise the same set.
    pub proof fn lemma_adv_set_same(a: Subscription, b: Subscription)
        requires
            a.advertised@ == b.advertised@,
        ensures
            a.adv_set() == b.adv_set(),
    {
        assert forall|x: u64| a.adv_contains(x) == b.adv_contains(x) by {
            if a.adv_contains(x) {
                let i = choose|i: int|
                    0 <= i < a.advertised@.len() && (#[trigger] a.advertised@[i]).hash == x;
                assert(b.advertised@[i].hash == x);
            }
            if b.adv_contains(x) {
                let i = choose|i: int|
                    0 <= i < b.advertised@.len() && (#[trigger] b.advertised@[i]).hash == x;
                assert(a.advertised@[i].hash == x);
            }
        }
        assert(a.adv_set() =~= b.adv_set());
    }

    /// Hash-preserving edits of the advertisement log keep the advertised
    /// set.
    proof fn lemma_adv_set_same_hashes(a: Subscription, b: Subscription)
        requires
            a.advertised@.len() == b.advertised@.len(),
            forall|i: int|
                0 <= i < a.advertised@.len() ==> (#[trigger] a.advertised@[i]).hash
                    == b.advertised@[i].hash,
        ensures
            a.adv_set() == b.adv_set(),
            forall|x: u64| a.adv_contains(x) == b.adv_contains(x),
    {
        assert forall|x: u64| a.adv_contains(x) == b.adv_contains(x) by {
            if a.adv_contains(x) {
                let i = choose|i: int|
                    0 <= i < a.advertised@.len() && (#[trigger] a.advertised@[i]).hash == x;
                assert(b.advertised@[i].hash == x);
            }
            if b.adv_contains(x) {
                let i = choose|i: int|
                    0 <= i < b.advertised@.len() && (#[trigger] b.advertised@[i]).hash == x;
                assert(a.advertised@[i].hash == x);
            }
        }
        assert(a.adv_set() =~= b.adv_set());
    }

    /// Appending one pin extends the pinned set by its hash.
    pub proof fn lemma_pinned_push(pre: Subscription, post: Subscription, p: PinnedBlock)
        requires
            post.pins@ == pre.pins@.push(p),
        ensures
            forall|x: u64| post.pinned(x) == (pre.pinned(x) || x == p.hash),
    {
        assert forall|x: u64| post.pinned(x) == (pre.pinned(x) || x == p.hash) by {
            if post.pinned(x) {
                let i = choose|i: int|
                    0 <= i < post.pins@.len() && (#[trigger] post.pins@[i]).hash == x;
                if i < post.pins@.len() - 1 {
                    assert(pre.pins@[i].hash == x);
                }
            }
            if pre.pinned(x) {
                let i = choose|i: int|
                    0 <= i < pre.pins@.len() && (#[trigger] pre.pins@[i]).hash == x;
                assert(post.pins@[i].hash == x);
            }
            if x == p.hash {
                assert(post.pins@[post.pins@.len() - 1].hash == x);
            }
        }
    }

    /// Subscriptions with the same pin log pin the same hashes.
    pub proof fn lemma_pinned_same(a: Subscription, b: Subscription)
        requires
            a.pins@ == b.pins@,
        ensures
            forall|x: u64| a.pinned(x) == b.pinned(x),
    {
        assert forall|x: u64| a.pinned(x) == b.pinned(x) by {
            if a.pinned(x) {
                let i = choose|i: int|
                    0 <= i < a.pins@.len() && (#[trigger] a.pins@[i]).hash == x;
                assert(b.pins@[i].hash == x);
            }
            if b.pinned(x) {
                let i = choose|i: int|
                    0 <= i < b.pins@.len() && (#[trigger] b.pins@[i]).hash == x;
                assert(a.pins@[i].hash == x);
            }
        }
    }

    /// Finds the pin entry of `h`.
    pub fn find_pin(&self, h: u64) -> (r: Option<usize>)
        requires
            self.pins_distinct(),
        ensures
            match r {
                Some(i) => i < self.pins@.len() && self.pins@[i as int].hash == h && self.pinned(h),
                None => !self.pinned(h),
            },
    {
        let mut i: usize = 0;
        while i < self.pins.len()
            invariant
                i <= self.pins@.len(),
                forall|j: int| 0 <= j < i ==> (#[trigger] self.pins@[j]).hash != h,
            decreases self.pins@.len() - i,
        {
            if self.pins[i].hash == h {
                return Some(i);
            }
            i = i + 1;
        }
        proof {
            if self.pinned(h) {
                let i = choose|i: int|
                    0 <= i < self.pins@.len() && (#[trigger] self.pins@[i]).hash == h;
                assert(self.pins@[i].hash != h);
            }
        }
        None
    }

    /// Whether `h` was ever advertised.
    pub fn find_advertised(&self, h: u64) -> (r: Option<usize>)
        ensures
            match r {
                Some(i) => i < self.advertised@.len() && self.advertised@[i as int].hash == h
                    && self.adv_contains(h),
                None => !self.adv_contains(h),
            },
    {
        let mut i: usize = 0;
        while i < self.advertised.len()
            invariant
                i <= self.advertised@.len(),
                forall|j: int| 0 <= j < i ==> (#[trigger] self.advertised@[j]).hash != h,
            decreases self.advertised@.len() - i,
        {
            if self.advertised[i].hash == h {
                return Some(i);
            }
            i = i + 1;
        }
        proof {
            if self.adv_contains(h) {
                let i = choose|i: int|
                    0 <= i < self.advertised@.len() && (#[trigger] self.advertised@[i]).hash == h;
                assert(self.advertised@[i].hash != h);
            }
        }
        None
    }

    /// Emits one event that advertises nothing: a best-block change, a
    /// finalization report, or an operation event.
    fn emit_plain(&mut self, e: FollowEvent)
        requires
            old(self).trace_inv(),
            !old(self).stopped,
            event_refs(e@).subset_of(old(self).adv_set()),
            !(e@ is Stop),
            !(e@ is Initialized),
            !(e@ is NewBlock),
        ensures
            *final(self) == (Subscription {
                pending: final(self).pending,
                history: final(self).history,
                ..*old(self)
            }),
            final(self).pending@ == old(self).pending@.push(e),
            final(self).history@ == old(self).history@.push(e@),
            final(self).trace_inv(),
    {
        let ghost h0 = self.history@;
        let ghost ev = e@;
        self.pending.push(e);
        proof {
            self.history@ = h0.push(ev);
            lemma_adv_after_snoc(h0, Set::empty(), ev);
            lemma_refs_ok_snoc(h0, Set::empty(), ev);
            lemma_skip_push(h0, self.delivered@, ev);
            assert(event_advertises(ev) =~= Set::<u64>::empty());
            assert(adv_after(h0, Set::empty()) == old(self).adv_set());
            assert(old(self).adv_set() + Set::<u64>::empty() =~= old(self).adv_set());
            assert forall|x: u64| self.adv_contains(x) == old(self).adv_contains(x) by {
                if self.adv_contains(x) {
                    let i = choose|i: int|
                        0 <= i < self.advertised@.len() && (#[trigger] self.advertised@[i]).hash
                            == x;
                    assert(old(self).advertised@[i].hash == x);
                }
                if old(self).adv_contains(x) {
                    let i = choose|i: int|
                        0 <= i < old(self).advertised@.len() && (#[trigger] old(
                            self,
                        ).advertised@[i]).hash == x;
                    assert(self.advertised@[i].hash == x);
                }
            }
            assert(self.adv_set() =~= old(self).adv_set());
            assert(adv_after(self.history@, Set::empty()) == self.adv_set());
            assert forall|i: int| 0 < i < self.history@.len() implies !((#[trigger] self.history@[i])
                is Initialized) by {
                if i < h0.len() {
                    assert(self.history@[i] == h0[i]);
                }
            }
            assert forall|i: int|
                0 <= i < self.history@.len() implies ((#[trigger] self.history@[i]) is Stop
                ==> self.stopped && i == self.history@.len() - 1) by {
                if i < h0.len() {
                    assert(self.history@[i] == h0[i]);
                }
            }
            assert(events_view(self.pending@) =~= events_view(old(self).pending@).push(ev));
            assert(events_view(old(self).pending@).push(ev) =~= h0.skip(self.delivered@).push(ev));
            assert(self.history@.skip(self.delivered@) =~= h0.skip(self.delivered@).push(ev));
            assert(events_view(self.pending@) =~= self.history@.skip(self.delivered@));
        }
    }

    /// Emits a `NewBlock` event, advertising its hash.
    fn emit_new_block(&mut self, hash: u64, parent: u64, new_runtime: Option<u64>)
        requires
            old(self).trace_inv(),
            old(self).adv_distinct(),
            !old(self).stopped,
            old(self).adv_contains(parent),
            !old(self).adv_contains(hash),
        ensures
            *final(self) == (Subscription {
                pending: final(self).pending,
                history: final(self).history,
                advertised: final(self).advertised,
                ..*old(self)
            }),
            final(self).pending@ == old(self).pending@.push(
                FollowEvent::NewBlock {
                    hash,
                    parent_hash: parent,
                    new_runtime,
                    with_runtime: old(self).with_runtime,
                },
            ),
            final(self).history@ == old(self).history@.push(
                EventV::NewBlock {
                    hash,
                    parent_hash: parent,
                    new_runtime,
                    with_runtime: old(self).with_runtime,
                },
            ),
            final(self).advertised@ == old(self).advertised@.push(
                AdvEntry { hash, reported_pruned: false },
            ),
            final(self).trace_inv(),
            final(self).adv_distinct(),
            final(self).adv_set() == old(self).adv_set().insert(hash),
    {
        let ghost h0 = self.history@;
        let e = FollowEvent::NewBlock {
            hash,
            parent_hash: parent,
            new_runtime,
            with_runtime: self.with_runtime,
        };
        let ghost ev = e@;
        self.pending.push(e);
        self.advertised.push(AdvEntry { hash, reported_pruned: false });
        proof {
            self.history@ = h0.push(ev);
            lemma_adv_after_snoc(h0, Set::empty(), ev);
            lemma_refs_ok_snoc(h0, Set::empty(), ev);
            lemma_skip_push(h0, self.delivered@, ev);
            assert(event_refs(ev) =~= set![parent]);
            assert(event_refs(ev).subset_of(old(self).adv_set()));
            assert(event_advertises(ev) =~= set![hash]);
            assert forall|i: int, j: int|
                0 <= i < j < self.advertised@.len() implies (#[trigger] self.advertised@[i]).hash
                != (#[trigger] self.advertised@[j]).hash by {
                if j < self.advertised@.len() - 1 {
                    assert(old(self).advertised@[i] == self.advertised@[i]);
                    assert(old(self).advertised@[j] == self.advertised@[j]);
                } else {
                    assert(old(self).adv_contains(self.advertised@[i].hash));
                }
            }
            assert(self.adv_set() =~= old(self).adv_set().insert(hash)) by {
                assert forall|x: u64| self.adv_contains(x) implies old(self).adv_set().insert(
                    hash,
                ).contains(x) by {
                    let i = choose|i: int|
                        0 <= i < self.advertised@.len() && (#[trigger] self.advertised@[i]).hash
                            == x;
                    if i < self.advertised@.len() - 1 {
                        assert(old(self).advertised@[i].hash == x);
                    }
                }
                assert forall|x: u64|
                    old(self).adv_set().insert(hash).contains(x) implies self.adv_contains(x) by {
                    if x == hash {
                        assert(self.advertised@[self.advertised@.len() - 1].hash == x);
                    } else {
                        let i = choose|i: int|
                            0 <= i < old(self).advertised@.len() && (#[trigger] old(
                                self,
                            ).advertised@[i]).hash == x;
                        assert(self.advertised@[i].hash == x);
                    }
                }
            }
            assert(adv_after(h0, Set::empty()) == old(self).adv_set());
            assert(old(self).adv_set() + set![hash] =~= old(self).adv_set().insert(hash));
            assert(adv_after(self.history@, Set::empty()) == self.adv_set());
            assert forall|i: int| 0 < i < self.history@.len() implies !((#[trigger] self.history@[i])
                is Initialized) by {
                if i < h0.len() {
                    assert(self.history@[i] == h0[i]);
                }
            }
            assert forall|i: int|
                0 <= i < self.history@.len() implies ((#[trigger] self.history@[i]) is Stop
                ==> self.stopped && i == self.history@.len() - 1) by {
                if i < h0.len() {
                    assert(self.history@[i] == h0[i]);
                }
            }
            assert(events_view(self.pending@) =~= events_view(old(self).pending@).push(ev));
            assert(events_view(old(self).pending@).push(ev) =~= h0.skip(self.delivered@).push(ev));
            assert(self.history@.skip(self.delivered@) =~= h0.skip(self.delivered@).push(ev));
            assert(events_view(self.pending@) =~= self.history@.skip(self.delivered@));
        }
    }

    /// Emits the terminal `Stop` event and marks the subscription stopped.
    fn emit_stop(&mut self)
        requires
            old(self).trace_inv(),
            !old(self).stopped,
        ensures
            *final(self) == (Subscription {
                pending: final(self).pending,
                history: final(self).history,
                stopped: true,
                ..*old(self)
            }),
            final(self).pending@ == old(self).pending@.push(FollowEvent::Stop),
            final(self).history@ == old(self).history@.push(EventV::Stop),
            final(self).stopped,
            final(self).trace_inv(),
    {
        let ghost h0 = self.history@;
        let ghost ev = EventV::Stop;
        self.pending.push(FollowEvent::Stop);
        self.stopped = true;
        proof {
            self.history@ = h0.push(ev);
            lemma_adv_after_snoc(h0, Set::empty(), ev);
            lemma_refs_ok_snoc(h0, Set::empty(), ev);
            lemma_skip_push(h0, self.delivered@, ev);
            assert(event_refs(ev) =~= Set::<u64>::empty());
            assert(event_advertises(ev) =~= Set::<u64>::empty());
            assert(adv_after(h0, Set::empty()) == old(self).adv_set());
            assert(old(self).adv_set() + Set::<u64>::empty() =~= old(self).adv_set());
            assert forall|x: u64| self.adv_contains(x) == old(self).adv_contains(x) by {
                if self.adv_contains(x) {
                    let i = choose|i: int|
                        0 <= i < self.advertised@.len() && (#[trigger] self.advertised@[i]).hash
                            == x;
                    assert(old(self).advertised@[i].hash == x);
                }
                if old(self).adv_contains(x) {
                    let i = choose|i: int|
                        0 <= i < old(self).advertised@.len() && (#[trigger] old(
                            self,
                        ).advertised@[i]).hash == x;
                    assert(self.advertised@[i].hash == x);
                }
            }
            assert(self.adv_set() =~= old(self).adv_set());
            assert(adv_after(self.history@, Set::empty()) == self.adv_set());
            assert forall|i: int| 0 < i < self.history@.len() implies !((#[trigger] self.history@[i])
                is Initialized) by {
                if i < h0.len() {
                    assert(self.history@[i] == h0[i]);
                }
            }
            assert forall|i: int|
                0 <= i < self.history@.len() implies ((#[trigger] self.history@[i]) is Stop
                ==> self.stopped && i == self.history@.len() - 1) by {
                if i < h0.len() {
                    assert(self.history@[i] == h0[i]);
                    assert(!(h0[i] is Stop));
                }
            }
            assert(events_view(self.pending@) =~= events_view(old(self).pending@).push(ev));
            assert(events_view(old(self).pending@).push(ev) =~= h0.skip(self.delivered@).push(ev));
            assert(self.history@.skip(self.delivered@) =~= h0.skip(self.delivered@).push(ev));
            assert(events_view(self.pending@) =~= self.history@.skip(self.delivered@));
        }
    }

    /// Emits the first event of a fresh subscription and advertises the
    /// finalized block it reports.
    fn emit_initialized(&mut self, f: u64, finalized_runtime: Option<u64>)
        requires
            old(self).history@.len() == 0,
            old(self).pending@.len() == 0,
            old(self).delivered@ == 0,
            old(self).advertised@.len() == 0,
            !old(self).stopped,
        ensures
            *final(self) == (Subscription {
                pending: final(self).pending,
                history: final(self).history,
                advertised: final(self).advertised,
                ..*old(self)
            }),
            final(self).history@ == seq![
                EventV::Initialized {
                    finalized_hash: f,
                    finalized_runtime,
                    with_runtime: old(self).with_runtime,
                },
            ],
            final(self).pending@ == seq![
                FollowEvent::Initialized {
                    finalized_hash: f,
                    finalized_runtime,
                    with_runtime: old(self).with_runtime,
                },
            ],
            final(self).advertised@ == seq![AdvEntry { hash: f, reported_pruned: false }],
            final(self).trace_inv(),
            final(self).adv_distinct(),
            final(self).adv_set() == Set::<u64>::empty().insert(f),
            final(self).adv_contains(f),
    {
        let e = FollowEvent::Initialized {
            finalized_hash: f,
            finalized_runtime,
            with_runtime: self.with_runtime,
        };
        let ghost ev = e@;
        self.pending.push(e);
        self.advertised.push(AdvEntry { hash: f, reported_pruned: false });
        proof {
            reveal_with_fuel(adv_after, 2);
            reveal_with_fuel(refs_ok_from, 2);
            self.history@ = seq![ev];
            assert(self.history@.drop_first() =~= Seq::<EventV>::empty());
            assert(self.history@[0] == ev);
            assert(event_refs(ev) =~= Set::<u64>::empty());
            assert(event_advertises(ev) =~= set![f]);
            assert(refs_ok_from(Seq::<EventV>::empty(), Set::empty() + event_advertises(ev)));
            assert(refs_ok_from(self.history@, Set::empty()));
            assert(self.advertised@[0].hash == f);
            assert(self.adv_contains(f));
            assert(adv_after(self.history@, Set::empty()) == adv_after(
                Seq::<EventV>::empty(),
                Set::empty() + event_advertises(ev),
            ));
            assert(self.adv_set() =~= Set::<u64>::empty().insert(f)) by {
                assert(self.advertised@[0].hash == f);
            }
            assert(adv_after(self.history@, Set::empty()) =~= self.adv_set());
            assert(self.pending@ =~= seq![
                FollowEvent::Initialized {
                    finalized_hash: f,
                    finalized_runtime,
                    with_runtime: self.with_runtime,
                },
            ]);
            assert(events_view(self.pending@) =~= self.history@.skip(0));
            assert(self.advertised@ =~= seq![AdvEntry { hash: f, reported_pruned: false }]);
        }
    }

    /// Stops the subscription: drops every pin and every paused operation,
    /// and emits the terminal `Stop` event.
    pub fn stop_now(&mut self, client: &ClientModel, g: &mut GlobalPins)
        requires
            old(self).inv(client.chain()),
            client.wf(),
            !old(self).stopped,
            old(g).used >= old(self).pins@.len(),
        ensures
            final(g).cap == old(g).cap,
            final(self).inv(client.chain()),
            stop_spec(*old(self), *final(self), old(g).used as int, final(g).used as int),
    {
        self.release_all_pins(g);
        self.storage_ops = Vec::new();
        self.ops_in_flight = 0;
        proof {
            Self::lemma_adv_set_same(*self, *old(self));
            assert(self.trace_inv());
        }
        self.emit_stop();
        proof {
            Self::lemma_adv_set_same(*self, *old(self));
            assert(sum_slots(self.storage_ops@) == 0);
            assert(old(self).adv_set().contains(old(self).last_finalized));
            assert(self.adv_set().contains(self.last_finalized));
            assert(old(self).adv_set().contains(old(self).best));
            assert(self.adv_set().contains(self.best));
            assert(self.inv(client.chain()));
        }
    }

    /// Pins one block, taking a slot of the global budget. Returns false
    /// (changing nothing) when the budget is exhausted.
    fn pin_block(&mut self, g: &mut GlobalPins, h: u64, now: u64) -> (r: bool)
        requires
            !old(self).pinned(h),
            old(self).pins_distinct(),
        ensures
            r == (old(g).used < old(g).cap),
            final(g).cap == old(g).cap,
            *final(self) == (Subscription { pins: final(self).pins, ..*old(self) }),
            final(self).pins_distinct(),
            r ==> {
                &&& final(self).pins@ == old(self).pins@.push(PinnedBlock { hash: h, inserted_at: now })
                &&& final(g).used == old(g).used + 1
            },
            !r ==> {
                &&& final(self).pins@ == old(self).pins@
                &&& final(g).used == old(g).used
            },
    {
        if g.used >= g.cap {
            return false;
        }
        g.used = g.used + 1;
        let ghost old_pins = self.pins@;
        self.pins.push(PinnedBlock { hash: h, inserted_at: now });
        proof {
            assert forall|i: int, j: int|
                0 <= i < j < self.pins@.len() implies (#[trigger] self.pins@[i]).hash != (
            #[trigger] self.pins@[j]).hash by {
                if j < self.pins@.len() - 1 {
                    assert(old_pins[i] == self.pins@[i]);
                    assert(old_pins[j] == self.pins@[j]);
                } else {
                    assert(old(self).pins@[i].hash == self.pins@[i].hash);
                }
            }
        }
        true
    }

    /// Drops every pin, returning the held slots to the global budget.
    fn release_all_pins(&mut self, g: &mut GlobalPins)
        requires
            old(g).used >= old(self).pins@.len(),
        ensures
            final(g).cap == old(g).cap,
            final(g).used == old(g).used - old(self).pins@.len(),
            *final(self) == (Subscription { pins: final(self).pins, ..*old(self) }),
            final(self).pins@.len() == 0,
    {
        let n = self.pins.len();
        self.pins.clear();
        proof {
            assert(g.used >= n);
        }
        g.used = g.used - n;
    }

    /// Opens a fresh subscription against the client's current state: it
    /// reports `Initialized` with the finalized block, advertises and pins
    /// every strict descendant of it in import order, and reports the best
    /// block; if the pin budget cannot hold them all, the subscription is
    /// stopped immediately.
    #[verifier::rlimit(100)]
    pub fn open(
        id: String,
        with_runtime: bool,
        max_ops: usize,
        max_storage_items: usize,
        max_pinned_ticks: u64,
        client: &ClientModel,
        g: &mut GlobalPins,
        now: u64,
    ) -> (r: Subscription)
        requires
            client.wf(),
            max_storage_items >= 1,
            old(g).used <= old(g).cap,
        ensures
            final(g).cap == old(g).cap,
            final(g).used <= final(g).cap,
            r.inv(client.chain()),
            r.id == id,
            open_spec(
                r,
                *client,
                old(g).used as int,
                final(g).used as int,
                old(g).cap as int,
                id@,
                with_runtime,
                max_ops,
                max_storage_items,
                max_pinned_ticks,
            ),
    {
        proof {
            client.lemma_chain_index();
            client.lemma_map_wf();
        }
        let ghost m = client.chain();
        let ghost recs = client.recs();
        let ghost orig_used = old(g).used;
        let ghost orig_cap = old(g).cap;
        let f = client.finalized;
        let fi = match client.find(f) {
            Some(i) => i,
            None => {
                proof {
                    assert(false);
                }
                0
            },
        };
        let frt = client.blocks[fi].runtime_version;
        let finalized_runtime = if with_runtime {
            Some(frt)
        } else {
            None
        };
        let mut sub = Subscription {
            id,
            with_runtime,
            max_ops,
            max_storage_items,
            max_pinned_ticks,
            pins: Vec::new(),
            advertised: Vec::new(),
            next_op_seq: 0,
            ops_in_flight: 0,
            storage_ops: Vec::new(),
            last_finalized: f,
            best: f,
            stopped: false,
            pending: Vec::new(),
            history: Ghost(Seq::empty()),
            delivered: Ghost(0),
        };
        let ghost orig_id = sub.id;
        proof {
            assert(m[f] == client.recs()[fi as int]);
        }
        sub.emit_initialized(f, finalized_runtime);
        let ghost init_ev = EventV::Initialized { finalized_hash: f, finalized_runtime, with_runtime };
        let ghost pre_f_pin = sub;
        let ok = sub.pin_block(g, f, now);
        proof {
            Subscription::lemma_adv_set_same(sub, pre_f_pin);
            assert(sub.trace_inv());
        }
        if !ok {
            proof {
                assert(sum_slots(sub.storage_ops@) == 0);
                assert(sub.adv_set().contains(f));
                assert(sub.inv(m));
                assert(g.used == orig_used);
            }
            sub.stop_now(client, g);
            proof {
                assert(g.used == orig_used && g.used >= g.cap);
                assert(start_new_blocks(recs.take(0), m, f, with_runtime) =~= Seq::<
                    EventV,
                >::empty());
                assert(sub.history@ =~= seq![init_ev] + start_new_blocks(
                    recs.take(0),
                    m,
                    f,
                    with_runtime,
                ) + seq![EventV::Stop]);
                let nbs = start_new_blocks(recs, m, f, with_runtime);
                assert(!(nbs.len() + 1 <= g.cap - orig_used));
            }
            return sub;
        }
        let mut i: usize = 0;
        proof {
            assert(recs.take(0) =~= Seq::<BlockV>::empty());
            assert(sub.history@ =~= seq![init_ev] + start_new_blocks(
                recs.take(0),
                m,
                f,
                with_runtime,
            ));
            assert(sub.pins@.len() == 1);
            assert(sub.pins@[0].hash == f);
            lemma_window_init(sub, recs, m, f);
        }
        let mut overflowed = false;
        while i < client.blocks.len()
            invariant_except_break
                !overflowed,
            invariant
                client.wf(),
                recs == client.recs(),
                m == client.chain(),
                f == client.finalized,
                g.cap == orig_cap,
                i <= client.blocks@.len(),
                sub.id == orig_id,
                sub.with_runtime == with_runtime,
                sub.max_ops == max_ops,
                sub.max_storage_items == max_storage_items,
                sub.max_storage_items >= 1,
                sub.max_pinned_ticks == max_pinned_ticks,
                sub.next_op_seq == 0,
                sub.ops_in_flight == 0,
                sub.storage_ops@.len() == 0,
                sub.last_finalized == f,
                sub.best == f,
                !sub.stopped,
                sub.delivered@ == 0,
                sub.trace_inv(),
                sub.pins_distinct(),
                sub.adv_distinct(),
                m.contains_key(f),
                sub.history@ =~= seq![init_ev] + start_new_blocks(
                    recs.take(i as int),
                    m,
                    f,
                    with_runtime,
                ),
                initial_window(sub, recs, m, f, i as int),
                g.used == orig_used + sub.pins@.len(),
                g.used <= g.cap,
                sub.pins@.len() == 1 + start_new_blocks(recs.take(i as int), m, f, with_runtime).len(),
            ensures
                overflowed ==> i < recs.len() && crate::client::anc_or_eq(
                    m,
                    f,
                    recs[i as int].hash,
                ) && recs[i as int].hash != f && g.used >= g.cap,
                !overflowed ==> i == client.blocks@.len(),
            decreases client.blocks@.len() - i,
        {
            let h = client.blocks[i].hash;
            let parent = client.blocks[i].parent;
            proof {
                client.lemma_chain_index();
                client.lemma_map_wf();
                assert(recs[i as int] == client.blocks@[i as int]@);
                assert(m.contains_key(h) && m[h] == recs[i as int]);
                assert(recs.take(i as int + 1).drop_last() =~= recs.take(i as int));
                assert(recs.take(i as int + 1).last() == recs[i as int]);
            }
            let is_desc = client.is_ancestor(f, h);
            if is_desc && h != f {
                proof {
                    lemma_window_fresh(sub, recs, m, f, i as int);
                }
                let ghost pre_pin = sub;
                let ok2 = sub.pin_block(g, h, now);
                proof {
                    Subscription::lemma_adv_set_same(sub, pre_pin);
                    assert(sub.trace_inv());
                }
                if !ok2 {
                    proof {
                        lemma_window_same(pre_pin, sub, recs, m, f, i as int);
                    }
                    overflowed = true;
                    break ;
                }
                let pi = match client.find(parent) {
                    Some(x) => x,
                    None => {
                        proof {
                            assert(false);
                        }
                        0
                    },
                };
                let prt = client.blocks[pi].runtime_version;
                let rt = client.blocks[i].runtime_version;
                let nr = if self_runtime_differs(with_runtime, rt, prt) {
                    Some(rt)
                } else {
                    None
                };
                proof {
                    assert(m.contains_key(m[h].parent));
                    assert(m[m[h].parent] == recs[pi as int]);
                    assert(nr == new_rt(m, h, with_runtime));
                    // The parent is advertised already: it is the finalized
                    // block or an earlier strict descendant.
                    assert(crate::client::anc_or_eq(m, f, m[h].parent));
                    let ghost mut wj: int = 0;
                    if parent != f {
                        reveal(crate::client::parents_first);
                        assert(crate::client::has_parent_before(client.recs(), i as int));
                        wj = choose|j: int|
                            0 <= j < i && (#[trigger] client.recs()[j]).hash
                                == client.recs()[i as int].parent;
                        assert(recs[wj].hash == parent);
                    }
                    lemma_window_parent(pre_pin, recs, m, f, i as int, wj);
                    Subscription::lemma_pinned_push(
                        pre_pin,
                        sub,
                        PinnedBlock { hash: h, inserted_at: now },
                    );
                    Subscription::lemma_adv_set_same(sub, pre_pin);
                    assert(sub.adv_set().contains(parent) == sub.adv_contains(parent));
                    assert(pre_pin.adv_set().contains(parent) == pre_pin.adv_contains(parent));
                    assert(sub.adv_contains(parent));
                    assert(sub.adv_set().contains(h) == sub.adv_contains(h));
                    assert(pre_pin.adv_set().contains(h) == pre_pin.adv_contains(h));
                    assert(!sub.adv_contains(h));
                }
                let ghost pre_nb = sub;
                sub.emit_new_block(h, parent, nr);
                proof {
                    assert(sub.history@ =~= seq![init_ev] + start_new_blocks(
                        recs.take(i as int + 1),
                        m,
                        f,
                        with_runtime,
                    ));
                    assert(sub.pins@ == pre_pin.pins@.push(
                        PinnedBlock { hash: h, inserted_at: now },
                    ));
                    assert(sub.advertised@ == pre_pin.advertised@.push(
                        AdvEntry { hash: h, reported_pruned: false },
                    ));
                    lemma_window_hit(pre_pin, sub, recs, m, f, i as int, now);
                }
            } else {
                proof {
                    assert(start_new_blocks(recs.take(i as int + 1), m, f, with_runtime)
                        =~= start_new_blocks(recs.take(i as int), m, f, with_runtime));
                    lemma_window_skip(sub, recs, m, f, i as int);
                }
            }
            i = i + 1;
        }
        if overflowed {
            proof {
                assert(sum_slots(sub.storage_ops@) == 0);
                lemma_window_entries(sub, recs, m, f, i as int);
                assert(sub.adv_set().contains(f));
                assert(sub.inv(m));
            }
            let ghost held = sub.pins@.len() as int;
            sub.stop_now(client, g);
            proof {
                assert(g.used == orig_used);
                assert(sub.history@ =~= seq![init_ev] + start_new_blocks(
                    recs.take(i as int),
                    m,
                    f,
                    with_runtime,
                ) + seq![EventV::Stop]);
                // The budget was exhausted: the whole tree does not fit.
                let nbs = start_new_blocks(recs, m, f, with_runtime);
                assert(recs.take(i as int + 1).drop_last() =~= recs.take(i as int));
                assert(recs.take(i as int + 1).last() == recs[i as int]);
                assert(start_new_blocks(recs.take(i as int + 1), m, f, with_runtime).len()
                    == start_new_blocks(recs.take(i as int), m, f, with_runtime).len() + 1);
                lemma_start_new_blocks_take_le(recs, m, f, with_runtime, i as int + 1);
                assert(!(nbs.len() + 1 <= g.cap - orig_used));
            }
            return sub;
        }
        proof {
            assert(recs.take(recs.len() as int) =~= recs);
        }
        let cbest = client.best;
        if cbest != f {
            proof {
                assert(crate::client::anc_or_eq(m, f, cbest));
                client.lemma_chain_index();
                let j = choose|j: int|
                    0 <= j < client.recs().len() && (#[trigger] client.recs()[j]).hash == cbest;
                assert(recs[j].hash == cbest);
                assert(initial_window(sub, recs, m, f, recs.len() as int)) by {}
                assert(sub.pinned(cbest)) by {
                    reveal(initial_window);
                    assert(recs[j].hash == cbest);
                }
                assert(sub.adv_contains(cbest)) by {
                    reveal(initial_window);
                }
                assert(sub.adv_set().contains(cbest));
            }
            let ghost pre_bbc = sub;
            sub.emit_plain(FollowEvent::BestBlockChanged { hash: cbest });
            proof {
                lemma_window_same(pre_bbc, sub, recs, m, f, recs.len() as int);
            }
            let ghost pre_best = sub;
            sub.best = cbest;
            proof {
                Subscription::lemma_adv_set_same(sub, pre_best);
                Subscription::lemma_pinned_same(sub, pre_best);
                assert(sub.trace_inv());
                assert(initial_window(sub, recs, m, f, recs.len() as int)) by {
                    lemma_window_same(pre_best, sub, recs, m, f, recs.len() as int);
                }
                assert(sub.adv_contains(sub.best)) by {
                    assert(sub.adv_set().contains(sub.best) == sub.adv_contains(sub.best));
                    assert(pre_best.adv_set().contains(cbest) == pre_best.adv_contains(cbest));
                }
            }
        }
        proof {
            let nbs = start_new_blocks(recs, m, f, with_runtime);
            assert(g.used == orig_used + 1 + nbs.len());
            assert(nbs.len() + 1 <= g.cap - orig_used);
            if cbest != f {
                assert(sub.history@ =~= seq![init_ev] + nbs + seq![
                    EventV::BestBlockChanged { hash: cbest },
                ]);
            } else {
                assert(sub.history@ =~= seq![init_ev] + nbs + Seq::<EventV>::empty());
                assert(sub.history@ =~= seq![init_ev] + nbs);
            }
            lemma_window_entries(sub, recs, m, f, recs.len() as int);
            assert(sub.adv_set().contains(f));
            if cbest != f {
                assert(sub.adv_set().contains(sub.best));
            }
            assert(sum_slots(sub.storage_ops@) == 0);
            assert(sub.inv(m));
            assert forall|x: u64| #[trigger] sub.pinned(x) implies (m.contains_key(x)
                && crate::client::anc_or_eq(m, f, x)) by {
                reveal(initial_window);
            }
            assert forall|x: u64|
                m.contains_key(x) && #[trigger] crate::client::anc_or_eq(m, f, x) implies sub.pinned(
                x,
            ) by {
                reveal(initial_window);
                if x != f {
                    client.lemma_chain_index();
                    let j = choose|j: int|
                        0 <= j < client.recs().len() && (#[trigger] client.recs()[j]).hash == x;
                    assert(recs[j].hash == x);
                    assert(sub.pinned(recs[j].hash));
                }
            }
        }
        sub
    }
}

/// The effect of one block-import notification on a subscription, with
/// the pin budget moving from `used0` to `used1` under cap `cap`: a fresh
/// block with an advertised parent is pinned and announced (and becomes
/// best if so flagged), an already-advertised or unconnected block and
/// anything after a stop change nothing, and a budget overflow stops the
/// subscription, releasing its pins.
pub open spec fn on_import_spec(
    pre: Subscription,
    post: Subscription,
    m: Map<u64, BlockV>,
    used0: int,
    used1: int,
    cap: int,
    h: u64,
    is_new_best: bool,
    now: u64,
) -> bool {
    &&& post.id == pre.id
    &&& post.with_runtime == pre.with_runtime
    &&& post.max_ops == pre.max_ops
    &&& post.max_storage_items == pre.max_storage_items
    &&& post.max_pinned_ticks == pre.max_pinned_ticks
    &&& post.next_op_seq == pre.next_op_seq
    &&& post.last_finalized == pre.last_finalized
    &&& post.delivered@ == pre.delivered@
    &&& if pre.stopped || pre.adv_contains(h) || !pre.adv_contains(m[h].parent) {
        post == pre && used1 == used0
    } else if used0 < cap {
        &&& post.history@ == pre.history@ + seq![
            EventV::NewBlock {
                hash: h,
                parent_hash: m[h].parent,
                new_runtime: new_rt(m, h, pre.with_runtime),
                with_runtime: pre.with_runtime,
            },
        ] + (if is_new_best && h != pre.best {
            seq![EventV::BestBlockChanged { hash: h }]
        } else {
            Seq::empty()
        })
        &&& post.best == (if is_new_best {
            h
        } else {
            pre.best
        })
        &&& post.pins@ == pre.pins@.push(PinnedBlock { hash: h, inserted_at: now })
        &&& post.advertised@ == pre.advertised@.push(AdvEntry { hash: h, reported_pruned: false })
        &&& !post.stopped
        &&& used1 == used0 + 1
        &&& post.storage_ops == pre.storage_ops
        &&& post.ops_in_flight == pre.ops_in_flight
    } else {
        &&& post.stopped
        &&& post.history@ == pre.history@.push(EventV::Stop)
        &&& post.advertised == pre.advertised
        &&& used1 == used0 - pre.pins@.len()
    }
}

/// The effect of one finality notification on a subscription, with the
/// pin budget moving from `used0` to `used1` under cap `cap` and the
/// client's best block `cbest`. A stale or diverging notification and
/// anything after a stop change nothing. Otherwise, when the budget
/// covers every path block that still needs a pin, the synthesized
/// announcements, the best-block switch off a dying branch, and the
/// finalization report are emitted in order, displaced forks are marked
/// reported, and nothing is unpinned; only when the budget cannot cover
/// them does the subscription stop.
#[verifier::opaque]
pub open spec fn on_finality_spec(
    pre: Subscription,
    post: Subscription,
    m: Map<u64, BlockV>,
    cbest: u64,
    used0: int,
    used1: int,
    cap: int,
    f: u64,
) -> bool {
    let lf = pre.last_finalized;
    &&& post.id == pre.id
    &&& post.with_runtime == pre.with_runtime
    &&& post.max_ops == pre.max_ops
    &&& post.max_storage_items == pre.max_storage_items
    &&& post.max_pinned_ticks == pre.max_pinned_ticks
    &&& post.next_op_seq == pre.next_op_seq
    &&& post.delivered@ == pre.delivered@
    &&& used1 - used0 == post.pins@.len() - pre.pins@.len()
    &&& if pre.stopped || f == lf || !crate::client::anc_or_eq(m, lf, f) {
        post == pre && used1 == used0
    } else {
        let path = crate::client::chain_between(m, lf, f);
        let n = m[f].number;
        let adv0 = pre.adv_set();
        let pruned = pruned_list(m, pre.advertised@, f, n);
        let best1 = if path.contains(cbest) && !adv0.contains(cbest) {
            cbest
        } else {
            pre.best
        };
        if used0 + fresh_count(path, adv0) <= cap {
            &&& !post.stopped
            &&& post.history@ == pre.history@ + synth_events(m, path, adv0, cbest, pre.with_runtime)
                + (if crate::client::anc_or_eq(m, f, best1) {
                Seq::<EventV>::empty()
            } else {
                seq![EventV::BestBlockChanged { hash: f }]
            }) + seq![EventV::Finalized { finalized_hashes: path, pruned_hashes: pruned }]
            &&& post.last_finalized == f
            &&& post.best == (if crate::client::anc_or_eq(m, f, best1) {
                best1
            } else {
                f
            })
            &&& (forall|i: int|
                0 <= i < pre.advertised@.len() ==> (#[trigger] post.advertised@[i]).hash
                    == pre.advertised@[i].hash && post.advertised@[i].reported_pruned == (
                pre.advertised@[i].reported_pruned || displaced(m, pre.advertised@[i], f, n)))
            &&& pre.pins@.len() <= post.pins@.len()
            &&& post.pins@.take(pre.pins@.len() as int) == pre.pins@
            &&& used1 == used0 + fresh_count(path, adv0)
            &&& post.storage_ops == pre.storage_ops
            &&& post.ops_in_flight == pre.ops_in_flight
        } else {
            &&& post.stopped
            &&& (exists|k: int|
                0 <= k <= path.len() && post.history@ == pre.history@ + synth_events(
                    m,
                    path.take(k),
                    adv0,
                    cbest,
                    pre.with_runtime,
                ) + seq![EventV::Stop])
            &&& used1 == used0 - pre.pins@.len()
        }
    }
}

/// `post` stands to `pre` as `on_import` promises, under some pair of
/// global pin-budget readings.
pub open spec fn on_import_rel(
    pre: Subscription,
    post: Subscription,
    m: Map<u64, BlockV>,
    cap: int,
    h: u64,
    is_new_best: bool,
    now: u64,
) -> bool {
    exists|u0: int, u1: int| on_import_spec(pre, post, m, u0, u1, cap, h, is_new_best, now)
}

/// `post` stands to `pre` as `on_finality` promises, under some pair of
/// global pin-budget readings.
pub open spec fn on_finality_rel(
    pre: Subscription,
    post: Subscription,
    m: Map<u64, BlockV>,
    cbest: u64,
    cap: int,
    f: u64,
) -> bool {
    exists|u0: int, u1: int| on_finality_spec(pre, post, m, cbest, u0, u1, cap, f)
}

/// `post` stands to `pre` as `stop_now` promises, under some pair of
/// global pin-budget readings.
pub open spec fn stop_rel(pre: Subscription, post: Subscription) -> bool {
    exists|u0: int, u1: int| stop_spec(pre, post, u0, u1)
}

/// What one sweep pass owes a subscription at tick `now`: a live one
/// holding an expired pin is stopped, any other is left untouched.
pub open spec fn sweep_rel(pre: Subscription, post: Subscription, now: u64) -> bool {
    if !pre.stopped && expired_pins(pre.pins@, now, pre.max_pinned_ticks).len() > 0 {
        stop_rel(pre, post)
    } else {
        post == pre
    }
}

impl Subscription {


    /// Handles one block-import notification: a fresh block whose parent
    /// was advertised is pinned and announced, and becomes the best block
    /// if the notification says so; a block already advertised, a block
    /// whose parent was never advertised, and anything after a stop are
    /// ignored; a pin-budget overflow stops the subscription.
    #[verifier::rlimit(100)]
    pub fn on_import(
        &mut self,
        client: &ClientModel,
        g: &mut GlobalPins,
        h: u64,
        is_new_best: bool,
        now: u64,
    )
        requires
            old(self).inv(client.chain()),
            client.wf(),
            client.chain().contains_key(h),
            old(g).used >= old(self).pins@.len(),
        ensures
            final(g).cap == old(g).cap,
            final(self).inv(client.chain()),
            on_import_spec(
                *old(self),
                *final(self),
                client.chain(),
                old(g).used as int,
                final(g).used as int,
                old(g).cap as int,
                h,
                is_new_best,
                now,
            ),
    {
        if self.stopped {
            return ;
        }
        if self.find_advertised(h).is_some() {
            return ;
        }
        let hi = match client.find(h) {
            Some(x) => x,
            None => {
                proof {
                    assert(false);
                }
                0
            },
        };
        let parent = client.blocks[hi].parent;
        let ghost m = client.chain();
        proof {
            client.lemma_chain_index();
            client.lemma_map_wf();
            assert(m[h] == client.recs()[hi as int]);
        }
        if self.find_advertised(parent).is_none() {
            return ;
        }
        proof {
            // Never advertised means never pinned.
            if self.pinned(h) {
                assert(self.adv_contains(self.pins@[choose|i: int|
                    0 <= i < self.pins@.len() && (#[trigger] self.pins@[i]).hash == h].hash));
            }
        }
        let ghost pre_pin = *self;
        let ok = self.pin_block(g, h, now);
        proof {
            Subscription::lemma_adv_set_same(*self, pre_pin);
            assert(self.trace_inv());
        }
        if !ok {
            proof {
                assert forall|pi: int| 0 <= pi < self.pins@.len() implies m.contains_key(
                    (#[trigger] self.pins@[pi]).hash,
                ) && self.adv_contains(self.pins@[pi].hash) by {
                    assert(pre_pin.pins@[pi] == self.pins@[pi]);
                    assert(pre_pin.adv_contains(pre_pin.pins@[pi].hash));
                    assert(pre_pin.adv_set().contains(pre_pin.pins@[pi].hash));
                    assert(self.adv_set().contains(self.pins@[pi].hash));
                }
                assert(pre_pin.adv_set().contains(pre_pin.last_finalized));
                assert(self.adv_set().contains(self.last_finalized));
                assert(pre_pin.adv_set().contains(pre_pin.best));
                assert(self.adv_set().contains(self.best));
                assert(self.inv(m));
            }
            self.stop_now(client, g);
            return ;
        }
        proof {
            Subscription::lemma_pinned_push(pre_pin, *self, PinnedBlock { hash: h, inserted_at: now });
        }
        let pidx = match client.find(parent) {
            Some(x) => x,
            None => {
                proof {
                    assert(false);
                }
                0
            },
        };
        let prt = client.blocks[pidx].runtime_version;
        let rt = client.blocks[hi].runtime_version;
        let nr = if self_runtime_differs(self.with_runtime, rt, prt) {
            Some(rt)
        } else {
            None
        };
        proof {
            assert(m.contains_key(m[h].parent));
            assert(m[m[h].parent] == client.recs()[pidx as int]);
            assert(nr == new_rt(m, h, self.with_runtime));
            assert(self.adv_set().contains(parent) == self.adv_contains(parent));
            assert(pre_pin.adv_set().contains(parent) == pre_pin.adv_contains(parent));
            assert(self.adv_contains(parent));
            assert(self.adv_set().contains(h) == self.adv_contains(h));
            assert(pre_pin.adv_set().contains(h) == pre_pin.adv_contains(h));
            assert(!self.adv_contains(h));
        }
        let ghost pre_nb = *self;
        self.emit_new_block(h, parent, nr);
        proof {
            Subscription::lemma_pinned_same(*self, pre_nb);
        }
        if is_new_best {
            if h != self.best {
                proof {
                    assert(self.adv_set().contains(h));
                }
                self.emit_plain(FollowEvent::BestBlockChanged { hash: h });
            }
            let ghost pre_best = *self;
            self.best = h;
            proof {
                Subscription::lemma_adv_set_same(*self, pre_best);
                Subscription::lemma_pinned_same(*self, pre_best);
                assert(self.trace_inv());
            }
        }
        proof {
            assert(self.adv_set() == pre_pin.adv_set().insert(h));
            assert forall|pi: int| 0 <= pi < self.pins@.len() implies m.contains_key(
                (#[trigger] self.pins@[pi]).hash,
            ) && self.adv_contains(self.pins@[pi].hash) by {
                assert(self.adv_set().contains(self.pins@[pi].hash) == self.adv_contains(
                    self.pins@[pi].hash,
                ));
                if pi < self.pins@.len() - 1 {
                    assert(pre_pin.pins@[pi] == self.pins@[pi]);
                    assert(pre_pin.adv_contains(pre_pin.pins@[pi].hash));
                    assert(pre_pin.adv_set().contains(self.pins@[pi].hash));
                } else {
                    assert(self.pins@[pi].hash == h);
                }
            }
            assert forall|ai: int| 0 <= ai < self.advertised@.len() implies m.contains_key(
                (#[trigger] self.advertised@[ai]).hash,
            ) by {
                if ai < self.advertised@.len() - 1 {
                    assert(pre_pin.advertised@[ai] == self.advertised@[ai]);
                } else {
                    assert(self.advertised@[ai].hash == h);
                }
            }
            assert forall|i: int, j: int|
                0 <= i < j < self.pins@.len() implies (#[trigger] self.pins@[i]).hash != (
            #[trigger] self.pins@[j]).hash by {
                if j < self.pins@.len() - 1 {
                    assert(pre_pin.pins@[i] == self.pins@[i]);
                    assert(pre_pin.pins@[j] == self.pins@[j]);
                } else {
                    assert(pre_pin.pinned(self.pins@[i].hash));
                    assert(pre_pin.adv_contains(self.pins@[i].hash));
                    assert(pre_pin.adv_set().contains(self.pins@[i].hash));
                    if self.pins@[i].hash == h {
                        assert(pre_pin.adv_contains(h));
                        assert(false);
                    }
                }
            }
            assert(pre_pin.adv_set().contains(pre_pin.last_finalized));
            assert(self.adv_set().contains(self.last_finalized));
            assert(self.adv_set().contains(self.best)) by {
                if is_new_best {
                    assert(self.best == h);
                } else {
                    assert(pre_pin.adv_set().contains(pre_pin.best));
                }
            }
            assert(self.inv(m));
            let nb_ev = EventV::NewBlock {
                hash: h,
                parent_hash: m[h].parent,
                new_runtime: new_rt(m, h, old(self).with_runtime),
                with_runtime: old(self).with_runtime,
            };
            if is_new_best && h != old(self).best {
                assert(self.history@ =~= old(self).history@ + seq![nb_ev] + seq![
                    EventV::BestBlockChanged { hash: h },
                ]);
            } else {
                assert(self.history@ =~= old(self).history@ + seq![nb_ev] + Seq::<EventV>::empty());
            }
        }
    }

    /// Handles one finality notification for a strict descendant `f` of
    /// the last reported finalized block. Path blocks the import stream
    /// has not delivered yet are synthesized first, each pinned and
    /// announced (a finality racing ahead of imports); displaced forks are
    /// reported pruned exactly once; a best block that left the canonical
    /// chain moves to `f`, reported immediately before the `Finalized`
    /// event, which carries the ancestor path and the pruned hashes.
    /// Stale or diverging notifications and anything after a stop are
    /// ignored; a pin-budget overflow stops the subscription.
    #[verifier::rlimit(100)]
    pub fn on_finality(&mut self, client: &ClientModel, g: &mut GlobalPins, f: u64, now: u64)
        requires
            old(self).inv(client.chain()),
            client.wf(),
            client.chain().contains_key(f),
            old(g).used >= old(self).pins@.len(),
            old(g).used <= old(g).cap,
        ensures
            final(g).cap == old(g).cap,
            final(g).used <= final(g).cap,
            final(self).inv(client.chain()),
            final(g).used - old(g).used == final(self).pins@.len() - old(self).pins@.len(),
            on_finality_spec(
                *old(self),
                *final(self),
                client.chain(),
                client.best,
                old(g).used as int,
                final(g).used as int,
                old(g).cap as int,
                f,
            ),
    {
        proof {
            reveal(on_finality_spec);
        }
        if self.stopped {
            return ;
        }
        if f == self.last_finalized {
            return ;
        }
        if !client.is_ancestor(self.last_finalized, f) {
            return ;
        }
        let ghost m = client.chain();
        let ghost lf = self.last_finalized;
        let ghost orig_sub = *self;
        let ghost adv0 = self.adv_set();
        let ghost best0 = self.best;
        let ghost orig_used = old(g).used;
        let ghost orig_cap = old(g).cap;
        let cbest = client.best;
        proof {
            client.lemma_map_wf();
            client.lemma_chain_index();
            crate::client::lemma_chain_between_props(m, lf, f);
            crate::client::lemma_anc_number(m, lf, f);
            lemma_fin_window_init(*self, m, crate::client::chain_between(m, lf, f), cbest);
        }
        let path = client.path_between(self.last_finalized, f);
        let ghost pathv = path@;
        let wrt = self.with_runtime;
        let ghost orig_adv_len = self.advertised@.len() as int;
        let mut k: usize = 0;
        let mut overflowed = false;
        proof {
            reveal_with_fuel(synth_events, 1);
            assert(pathv.take(0) =~= Seq::<u64>::empty());
            assert(synth_events(m, pathv.take(0), adv0, cbest, wrt) =~= Seq::<EventV>::empty());
            assert(self.history@ =~= orig_sub.history@ + synth_events(
                m,
                pathv.take(0),
                adv0,
                cbest,
                wrt,
            ));
            assert(self.advertised@.take(orig_adv_len) =~= orig_sub.advertised@);
            assert(self.pins@.take(orig_sub.pins@.len() as int) =~= orig_sub.pins@);
            assert(fresh_count(pathv.take(0), adv0) == 0);
        }
        while k < path.len()
            invariant_except_break
                !overflowed,
            invariant
                client.wf(),
                m == client.chain(),
                cbest == client.best,
                g.cap == orig_cap,
                k <= pathv.len(),
                pathv == path@,
                pathv == crate::client::chain_between(m, lf, f),
                m.contains_key(f),
                m.contains_key(lf),
                crate::client::anc_or_eq(m, lf, f),
                lf != f,
                pathv.len() > 0 && pathv.last() == f,
                forall|i: int|
                    0 <= i < pathv.len() ==> m.contains_key(#[trigger] pathv[i])
                        && m[pathv[i]].number == m[lf].number + 1 + i && crate::client::anc_or_eq(
                        m,
                        pathv[i],
                        f,
                    ),
                *self == (Subscription {
                    pins: self.pins,
                    advertised: self.advertised,
                    pending: self.pending,
                    history: self.history,
                    best: self.best,
                    ..orig_sub
                }),
                self.trace_inv(),
                self.pins_distinct(),
                self.adv_distinct(),
                !self.stopped,
                self.with_runtime == wrt,
                self.history@ == orig_sub.history@ + synth_events(
                    m,
                    pathv.take(k as int),
                    adv0,
                    cbest,
                    wrt,
                ),
                fin_window(*self, m, pathv, adv0, cbest, best0, lf, k as int),
                orig_adv_len == orig_sub.advertised@.len(),
                orig_adv_len <= self.advertised@.len(),
                self.advertised@.take(orig_adv_len) == orig_sub.advertised@,
                forall|j: int|
                    orig_adv_len <= j < self.advertised@.len() ==> crate::client::anc_or_eq(
                        m,
                        (#[trigger] self.advertised@[j]).hash,
                        f,
                    ),
                orig_sub.pins@.len() <= self.pins@.len(),
                self.pins@.take(orig_sub.pins@.len() as int) == orig_sub.pins@,
                g.used - orig_used == self.pins@.len() - orig_sub.pins@.len(),
                self.pins@.len() - orig_sub.pins@.len() == fresh_count(
                    pathv.take(k as int),
                    adv0,
                ),
                g.used <= g.cap,
                orig_used >= orig_sub.pins@.len(),
            ensures
                overflowed ==> g.used >= g.cap && orig_used as int + fresh_count(pathv, adv0)
                    > g.cap,
                !overflowed ==> k == pathv.len(),
            decreases pathv.len() - k,
        {
            let p = path[k];
            if self.find_advertised(p).is_none() {
                proof {
                    lemma_fin_window_entries(*self, m, pathv, adv0, cbest, best0, lf, k as int);
                    if self.pinned(p) {
                        let pi = choose|pi: int|
                            0 <= pi < self.pins@.len() && (#[trigger] self.pins@[pi]).hash == p;
                        assert(self.adv_contains(self.pins@[pi].hash));
                    }
                }
                let ghost pre_pin = *self;
                let ok = self.pin_block(g, p, now);
                proof {
                    Subscription::lemma_adv_set_same(*self, pre_pin);
                    assert(self.trace_inv());
                }
                if !ok {
                    proof {
                        lemma_fin_window_same(
                            pre_pin,
                            *self,
                            m,
                            pathv,
                            adv0,
                            cbest,
                            best0,
                            lf,
                            k as int,
                        );
                        assert(self.advertised@.take(orig_adv_len) == orig_sub.advertised@);
                        assert(self.pins@.take(orig_sub.pins@.len() as int) == orig_sub.pins@);
                        // The budget is exhausted while this fresh path
                        // block still needs a pin: the report cannot fit.
                        lemma_fin_window_entries(
                            pre_pin,
                            m,
                            pathv,
                            adv0,
                            cbest,
                            best0,
                            lf,
                            k as int,
                        );
                        assert(!adv0.contains(p)) by {
                            if adv0.contains(p) {
                                assert((adv0 + pathv.take(k as int).to_set()).contains(p));
                                assert(pre_pin.adv_set().contains(p) == pre_pin.adv_contains(p));
                            }
                        }
                        assert(pathv.take(k as int + 1).drop_last() =~= pathv.take(k as int));
                        assert(pathv.take(k as int + 1).last() == p);
                        assert(fresh_count(pathv.take(k as int + 1), adv0) == fresh_count(
                            pathv.take(k as int),
                            adv0,
                        ) + 1);
                        lemma_fresh_count_take_le(pathv, adv0, k as int + 1);
                        assert(orig_used as int + fresh_count(pathv, adv0) > g.cap);
                    }
                    overflowed = true;
                    break ;
                }
                proof {
                    Subscription::lemma_pinned_push(
                        pre_pin,
                        *self,
                        PinnedBlock { hash: p, inserted_at: now },
                    );
                    assert(self.pins@.take(orig_sub.pins@.len() as int) =~= orig_sub.pins@) by {
                        assert(pre_pin.pins@.take(orig_sub.pins@.len() as int)
                            == orig_sub.pins@);
                    }
                }
                let pidx = match client.find(p) {
                    Some(x) => x,
                    None => {
                        proof {
                            assert(false);
                        }
                        0
                    },
                };
                let parent = client.blocks[pidx].parent;
                let rt = client.blocks[pidx].runtime_version;
                let paridx = match client.find(parent) {
                    Some(x) => x,
                    None => {
                        proof {
                            assert(false);
                        }
                        0
                    },
                };
                let prt = client.blocks[paridx].runtime_version;
                let nr = if self_runtime_differs(wrt, rt, prt) {
                    Some(rt)
                } else {
                    None
                };
                proof {
                    client.lemma_map_wf();
                    assert(m[p] == client.recs()[pidx as int]);
                    assert(m[m[p].parent] == client.recs()[paridx as int]);
                    assert(nr == new_rt(m, p, wrt));
                    // The parent is the previous path block, or the block
                    // this finality report starts from.
                    crate::client::lemma_chain_between_props(m, lf, f);
                    assert(m[p].parent == (if k == 0 {
                        lf
                    } else {
                        pathv[k as int - 1]
                    }));
                    lemma_fin_window_entries(pre_pin, m, pathv, adv0, cbest, best0, lf, k as int);
                    assert(pre_pin.adv_contains(m[p].parent));
                    assert(self.adv_set().contains(parent) == self.adv_contains(parent));
                    assert(pre_pin.adv_set().contains(parent) == pre_pin.adv_contains(parent));
                    assert(self.adv_contains(parent));
                    assert(!self.adv_contains(p)) by {
                        assert(self.adv_set().contains(p) == self.adv_contains(p));
                        assert(pre_pin.adv_set().contains(p) == pre_pin.adv_contains(p));
                    }
                    assert(pathv.take(k as int + 1).drop_last() =~= pathv.take(k as int));
                    assert(pathv.take(k as int + 1).last() == p);
                }
                let ghost pre_nb = *self;
                self.emit_new_block(p, parent, nr);
                if p == cbest {
                    proof {
                        assert(self.adv_set().contains(p) == self.adv_contains(p));
                    }
                    self.emit_plain(FollowEvent::BestBlockChanged { hash: p });
                    let ghost pre_b = *self;
                    self.best = p;
                    proof {
                        Subscription::lemma_adv_set_same(*self, pre_b);
                        Subscription::lemma_pinned_same(*self, pre_b);
                        assert(self.trace_inv());
                    }
                }
                proof {
                    assert(self.pins@ == pre_pin.pins@.push(
                        PinnedBlock { hash: p, inserted_at: now },
                    ));
                    assert(self.advertised@ == pre_pin.advertised@.push(
                        AdvEntry { hash: p, reported_pruned: false },
                    ));
                    assert(self.adv_set() == pre_pin.adv_set().insert(p));
                    assert(self.best == (if p == cbest {
                        cbest
                    } else {
                        pre_pin.best
                    }));
                    assert(self.history@ =~= pre_pin.history@ + (seq![
                        EventV::NewBlock {
                            hash: p,
                            parent_hash: m[p].parent,
                            new_runtime: new_rt(m, p, wrt),
                            with_runtime: wrt,
                        },
                    ] + (if p == cbest {
                        seq![EventV::BestBlockChanged { hash: cbest }]
                    } else {
                        Seq::<EventV>::empty()
                    })));
                    lemma_fin_hit_all(
                        pre_pin,
                        *self,
                        m,
                        pathv,
                        adv0,
                        cbest,
                        best0,
                        lf,
                        f,
                        orig_sub.history@,
                        orig_sub.advertised@,
                        k as int,
                        now,
                        wrt,
                    );
                    assert(pathv.take(k as int + 1).drop_last() =~= pathv.take(k as int));
                    assert(pathv.take(k as int + 1).last() == p);
                    assert(fresh_count(pathv.take(k as int + 1), adv0) == fresh_count(
                        pathv.take(k as int),
                        adv0,
                    ) + 1);
                }
            } else {
                proof {
                    lemma_fin_window_skip(*self, m, pathv, adv0, cbest, best0, lf, k as int);
                    lemma_synth_snoc(m, pathv, adv0, cbest, wrt, k as int);
                    assert(synth_events(m, pathv.take(k as int + 1), adv0, cbest, wrt)
                        =~= synth_events(m, pathv.take(k as int), adv0, cbest, wrt));
                    assert(pathv.take(k as int + 1).drop_last() =~= pathv.take(k as int));
                    assert(pathv.take(k as int + 1).last() == p);
                    assert(fresh_count(pathv.take(k as int + 1), adv0) == fresh_count(
                        pathv.take(k as int),
                        adv0,
                    ));
                }
            }
            k = k + 1;
        }
        if overflowed {
            proof {
                lemma_fin_window_entries(*self, m, pathv, adv0, cbest, best0, lf, k as int);
                lemma_inv_from_parts(*self, orig_sub, m);
            }
            self.stop_now(client, g);
            proof {
                assert(self.history@ =~= orig_sub.history@ + synth_events(
                    m,
                    pathv.take(k as int),
                    adv0,
                    cbest,
                    wrt,
                ) + seq![EventV::Stop]);
                assert(0 <= k as int <= pathv.len());
                assert(g.used == orig_used - orig_sub.pins@.len());
            }
            return ;
        }
        let ghost post_loop = *self;
        proof {
            lemma_fin_window_entries(post_loop, m, pathv, adv0, cbest, best0, lf, pathv.len() as int);
            assert(pathv.take(pathv.len() as int) =~= pathv);
        }
        self.fin_finish(client, path, f, Ghost(orig_sub), Ghost(adv0), Ghost(best0));
        proof {
            let n = m[f].number;
            let best1s = if pathv.contains(cbest) && !adv0.contains(cbest) {
                cbest
            } else {
                best0
            };
            assert(post_loop.best == best1s);
            assert(post_loop.history@ == orig_sub.history@ + synth_events(
                m,
                pathv,
                adv0,
                cbest,
                wrt,
            ));
            if crate::client::anc_or_eq(m, f, best1s) {
                assert(self.history@ =~= orig_sub.history@ + synth_events(
                    m,
                    pathv,
                    adv0,
                    cbest,
                    wrt,
                ) + Seq::<EventV>::empty() + seq![
                    EventV::Finalized {
                        finalized_hashes: pathv,
                        pruned_hashes: pruned_list(m, orig_sub.advertised@, f, n),
                    },
                ]);
            } else {
                assert(self.history@ =~= orig_sub.history@ + synth_events(
                    m,
                    pathv,
                    adv0,
                    cbest,
                    wrt,
                ) + seq![EventV::BestBlockChanged { hash: f }] + seq![
                    EventV::Finalized {
                        finalized_hashes: pathv,
                        pruned_hashes: pruned_list(m, orig_sub.advertised@, f, n),
                    },
                ]);
            }
        }
    }


    /// Emits the closing events of a finality report: the best-block
    /// switch when the reported best left the canonical chain, then the
    /// `Finalized` event itself.
    #[verifier::rlimit(100)]
    fn fin_emit_tail(
        &mut self,
        client: &ClientModel,
        path: Vec<u64>,
        pruned: Vec<u64>,
        f: u64,
        n: u64,
        Ghost(orig): Ghost<Subscription>,
        Ghost(mid): Ghost<Subscription>,
    )
        requires
            client.wf(),
            ({
                let m = client.chain();
                let lf = old(self).last_finalized;
                let pathv = path@;
                &&& m.contains_key(f)
                &&& n == m[f].number
                &&& m.contains_key(lf)
                &&& lf != f
                &&& crate::client::anc_or_eq(m, lf, f)
                &&& pathv == crate::client::chain_between(m, lf, f)
                &&& pathv.len() > 0 && pathv.last() == f
                &&& old(self).trace_inv()
                &&& old(self).pins_distinct()
                &&& old(self).adv_distinct()
                &&& !old(self).stopped
                &&& orig.inv(m)
                &&& old(self).storage_ops == orig.storage_ops
                &&& old(self).ops_in_flight == orig.ops_in_flight
                &&& old(self).next_op_seq == orig.next_op_seq
                &&& old(self).max_storage_items == orig.max_storage_items
                &&& old(self).max_ops == orig.max_ops
                &&& mid.advertised@.len() == old(self).advertised@.len()
                &&& (forall|j: int|
                    0 <= j < mid.advertised@.len() ==> (
                    #[trigger] old(self).advertised@[j]).hash == mid.advertised@[j].hash)
                &&& mid.pins@ == old(self).pins@
                &&& mid.best == old(self).best
                &&& mid.last_finalized == lf
                &&& (forall|j: int| 0 <= j < pathv.len() ==> mid.adv_contains(#[trigger] pathv[j]))
                &&& (forall|x: u64| #[trigger] mid.adv_contains(x) ==> m.contains_key(x))
                &&& (forall|i: int|
                    0 <= i < mid.pins@.len() ==> m.contains_key((#[trigger] mid.pins@[i]).hash)
                        && mid.adv_contains(mid.pins@[i].hash))
                &&& mid.adv_contains(mid.best)
                &&& mid.adv_contains(lf)
                &&& (forall|j: int|
                    0 <= j < pruned@.len() ==> mid.adv_contains(#[trigger] pruned@[j]))
            }),
        ensures
            final(self).id == old(self).id,
            final(self).with_runtime == old(self).with_runtime,
            final(self).max_ops == old(self).max_ops,
            final(self).max_storage_items == old(self).max_storage_items,
            final(self).max_pinned_ticks == old(self).max_pinned_ticks,
            final(self).next_op_seq == old(self).next_op_seq,
            final(self).pins@ == old(self).pins@,
            final(self).advertised@ == old(self).advertised@,
            final(self).storage_ops == old(self).storage_ops,
            final(self).ops_in_flight == old(self).ops_in_flight,
            final(self).delivered@ == old(self).delivered@,
            !final(self).stopped,
            final(self).inv(client.chain()),
            ({
                let m = client.chain();
                let pathv = path@;
                let best1 = old(self).best;
                &&& final(self).history@ == old(self).history@ + (if crate::client::anc_or_eq(
                    m,
                    f,
                    best1,
                ) {
                    Seq::<EventV>::empty()
                } else {
                    seq![EventV::BestBlockChanged { hash: f }]
                }) + seq![
                    EventV::Finalized { finalized_hashes: pathv, pruned_hashes: pruned@ },
                ]
                &&& final(self).last_finalized == f
                &&& final(self).best == (if crate::client::anc_or_eq(m, f, best1) {
                    best1
                } else {
                    f
                })
            }),
    {
        let ghost m = client.chain();
        let ghost lf = self.last_finalized;
        let ghost pathv = path@;
        let ghost best1 = self.best;
        let ghost h0 = self.history@;
        proof {
            Subscription::lemma_adv_set_same_hashes(*self, mid);
            Subscription::lemma_pinned_same(*self, mid);
        }
        // A best block that left the canonical chain moves to the new
        // finalized block, reported just before the finalization.
        if !client.is_ancestor(f, self.best) {
            proof {
                assert(mid.adv_contains(f)) by {
                    assert(mid.adv_contains(pathv[pathv.len() - 1]));
                }
                assert(mid.adv_set().contains(f));
                assert(self.adv_set().contains(f));
            }
            self.emit_plain(FollowEvent::BestBlockChanged { hash: f });
            let ghost pre_b = *self;
            self.best = f;
            proof {
                Subscription::lemma_adv_set_same(*self, pre_b);
                Subscription::lemma_pinned_same(*self, pre_b);
                assert(self.trace_inv());
            }
        }
        // The finalization report itself.
        let fin_ev = FollowEvent::Finalized { finalized_hashes: path, pruned_hashes: pruned };
        proof {
            Subscription::lemma_adv_set_same_hashes(*self, mid);
            assert(event_refs(fin_ev@) =~= pathv.to_set() + pruned@.to_set());
            assert(event_refs(fin_ev@).subset_of(self.adv_set())) by {
                assert forall|x: u64|
                    event_refs(fin_ev@).contains(x) implies self.adv_set().contains(x) by {
                    if pathv.to_set().contains(x) {
                        let j = choose|j: int| 0 <= j < pathv.len() && (#[trigger] pathv[j]) == x;
                        assert(mid.adv_contains(pathv[j]));
                        assert(mid.adv_set().contains(x));
                    } else {
                        let j = choose|j: int|
                            0 <= j < pruned@.len() && (#[trigger] pruned@[j]) == x;
                        assert(mid.adv_contains(pruned@[j]));
                        assert(mid.adv_set().contains(x));
                    }
                }
            }
        }
        self.emit_plain(fin_ev);
        let ghost pre_lf = *self;
        self.last_finalized = f;
        proof {
            Subscription::lemma_adv_set_same(*self, pre_lf);
            Subscription::lemma_pinned_same(*self, pre_lf);
            assert(self.trace_inv());
            assert(mid.adv_contains(f)) by {
                assert(mid.adv_contains(pathv[pathv.len() - 1]));
            }
            assert(self.adv_contains(self.last_finalized)) by {
                assert(mid.adv_set().contains(f));
                assert(self.adv_set().contains(f) == self.adv_contains(f));
            }
            assert(self.adv_contains(self.best)) by {
                if self.best == f {
                    assert(mid.adv_set().contains(f));
                    assert(self.adv_set().contains(f) == self.adv_contains(f));
                } else {
                    assert(self.best == mid.best);
                    assert(mid.adv_set().contains(mid.best));
                    assert(self.adv_set().contains(self.best) == self.adv_contains(self.best));
                }
            }
            assert forall|i: int| 0 <= i < self.pins@.len() implies m.contains_key(
                (#[trigger] self.pins@[i]).hash,
            ) && self.adv_contains(self.pins@[i].hash) by {
                assert(mid.pins@[i] == self.pins@[i]);
                assert(mid.adv_contains(mid.pins@[i].hash));
                assert(mid.adv_set().contains(mid.pins@[i].hash));
                assert(self.adv_set().contains(self.pins@[i].hash) == self.adv_contains(
                    self.pins@[i].hash,
                ));
            }
            assert forall|x: u64| #[trigger] self.adv_contains(x) implies m.contains_key(x) by {
                assert(self.adv_set().contains(x) == self.adv_contains(x));
                assert(mid.adv_set().contains(x) == mid.adv_contains(x));
                assert(mid.adv_contains(x));
            }
            lemma_inv_from_parts(*self, orig, m);
            if crate::client::anc_or_eq(m, f, best1) {
                assert(self.history@ =~= h0 + Seq::<EventV>::empty() + seq![
                    EventV::Finalized { finalized_hashes: pathv, pruned_hashes: pruned@ },
                ]);
            } else {
                assert(self.history@ =~= h0 + seq![EventV::BestBlockChanged { hash: f }] + seq![
                    EventV::Finalized { finalized_hashes: pathv, pruned_hashes: pruned@ },
                ]);
            }
        }
    }

    /// Marks every displaced fork as reported and collects the pruned
    /// hashes, in advertisement order.
    #[verifier::rlimit(100)]
    fn fin_mark(&mut self, client: &ClientModel, f: u64, n: u64) -> (pruned: Vec<u64>)
        requires
            client.wf(),
            client.chain().contains_key(f),
            n == client.chain()[f].number,
            old(self).trace_inv(),
            old(self).adv_distinct(),
        ensures
            *final(self) == (Subscription {
                advertised: final(self).advertised,
                ..*old(self)
            }),
            final(self).trace_inv(),
            final(self).adv_distinct(),
            final(self).adv_set() == old(self).adv_set(),
            forall|x: u64| final(self).adv_contains(x) == old(self).adv_contains(x),
            final(self).advertised@.len() == old(self).advertised@.len(),
            forall|j: int|
                0 <= j < old(self).advertised@.len() ==> (
                #[trigger] final(self).advertised@[j]).hash == old(self).advertised@[j].hash
                    && final(self).advertised@[j].reported_pruned == (old(
                    self,
                ).advertised@[j].reported_pruned || displaced(
                    client.chain(),
                    old(self).advertised@[j],
                    f,
                    n,
                )),
            pruned@ == pruned_list(client.chain(), old(self).advertised@, f, n),
            forall|j: int|
                0 <= j < pruned@.len() ==> old(self).adv_contains(#[trigger] pruned@[j]),
    {
        let ghost m = client.chain();
        let ghost mid_sub = *old(self);
        let mut pruned: Vec<u64> = Vec::new();
        let mut ai: usize = 0;
        proof {
            reveal_with_fuel(pruned_list, 1);
            assert(mid_sub.advertised@.take(0) =~= Seq::<AdvEntry>::empty());
            assert(pruned@ =~= pruned_list(m, mid_sub.advertised@.take(0), f, n));
        }
        while ai < self.advertised.len()
            invariant
                client.wf(),
                m == client.chain(),
                m.contains_key(f),
                n == m[f].number,
                ai <= self.advertised@.len(),
                *self == (Subscription { advertised: self.advertised, ..mid_sub }),
                self.advertised@.len() == mid_sub.advertised@.len(),
                forall|j: int|
                    0 <= j < self.advertised@.len() ==> (#[trigger] self.advertised@[j]).hash
                        == mid_sub.advertised@[j].hash,
                forall|j: int|
                    ai <= j < self.advertised@.len() ==> (#[trigger] self.advertised@[j])
                        == mid_sub.advertised@[j],
                forall|j: int|
                    0 <= j < ai && j < self.advertised@.len() ==> (
                    #[trigger] self.advertised@[j]).reported_pruned == (
                    mid_sub.advertised@[j].reported_pruned || displaced(
                        m,
                        mid_sub.advertised@[j],
                        f,
                        n,
                    )),
                pruned@ =~= pruned_list(m, mid_sub.advertised@.take(ai as int), f, n),
                forall|j: int|
                    0 <= j < pruned@.len() ==> mid_sub.adv_contains(#[trigger] pruned@[j]),
            decreases self.advertised@.len() - ai,
        {
            proof {
                reveal_with_fuel(pruned_list, 2);
                reveal(displaced);
                assert(mid_sub.advertised@.take(ai as int + 1).drop_last()
                    =~= mid_sub.advertised@.take(ai as int));
                assert(mid_sub.advertised@.take(ai as int + 1).last()
                    == mid_sub.advertised@[ai as int]);
                assert(mid_sub.adv_contains(mid_sub.advertised@[ai as int].hash));
            }
            let entry = self.advertised[ai];
            let is_anc = client.is_ancestor(entry.hash, f);
            let mut disp = false;
            if !entry.reported_pruned && !is_anc {
                disp = !client.has_descendant_at_least(entry.hash, n);
            }
            proof {
                assert(entry == mid_sub.advertised@[ai as int]);
                assert(disp == displaced(m, mid_sub.advertised@[ai as int], f, n));
            }
            if disp {
                pruned.push(entry.hash);
                let mut e2 = entry;
                e2.reported_pruned = true;
                self.advertised.set(ai, e2);
            }
            ai = ai + 1;
        }
        proof {
            assert(mid_sub.advertised@.take(mid_sub.advertised@.len() as int)
                =~= mid_sub.advertised@);
            assert(pruned@ =~= pruned_list(m, mid_sub.advertised@, f, n));
            Subscription::lemma_adv_set_same_hashes(*self, mid_sub);
            Subscription::lemma_pinned_same(*self, mid_sub);
            assert(self.trace_inv());
            assert forall|j: int|
                0 <= j < pruned@.len() implies mid_sub.adv_contains(#[trigger] pruned@[j]) by {}
            assert forall|a: int, b: int|
                0 <= a < b < self.advertised@.len() implies (#[trigger] self.advertised@[a]).hash
                != (#[trigger] self.advertised@[b]).hash by {
                assert(self.advertised@[a].hash == mid_sub.advertised@[a].hash);
                assert(self.advertised@[b].hash == mid_sub.advertised@[b].hash);
            }
        }
        pruned
    }

    /// Finishes a finality report once every path block is advertised:
    /// prunes displaced forks, moves a best block that left the canonical
    /// chain to the finalized block, and emits the `Finalized` event.
    #[verifier::rlimit(100)]
    fn fin_finish(
        &mut self,
        client: &ClientModel,
        path: Vec<u64>,
        f: u64,
        Ghost(orig): Ghost<Subscription>,
        Ghost(adv0): Ghost<Set<u64>>,
        Ghost(best0): Ghost<u64>,
    )
        requires
            client.wf(),
            ({
                let m = client.chain();
                let lf = old(self).last_finalized;
                let pathv = path@;
                &&& m.contains_key(f)
                &&& m.contains_key(lf)
                &&& lf != f
                &&& crate::client::anc_or_eq(m, lf, f)
                &&& pathv == crate::client::chain_between(m, lf, f)
                &&& pathv.len() > 0 && pathv.last() == f
                &&& fin_window(
                    *old(self),
                    m,
                    pathv,
                    adv0,
                    client.best,
                    best0,
                    lf,
                    pathv.len() as int,
                )
                &&& old(self).trace_inv()
                &&& old(self).pins_distinct()
                &&& old(self).adv_distinct()
                &&& !old(self).stopped
                &&& orig.inv(m)
                &&& old(self).storage_ops == orig.storage_ops
                &&& old(self).ops_in_flight == orig.ops_in_flight
                &&& old(self).next_op_seq == orig.next_op_seq
                &&& old(self).max_storage_items == orig.max_storage_items
                &&& old(self).max_ops == orig.max_ops
                &&& orig.advertised@.len() <= old(self).advertised@.len()
                &&& old(self).advertised@.take(orig.advertised@.len() as int)
                    == orig.advertised@
                &&& (forall|j: int|
                    orig.advertised@.len() <= j < old(self).advertised@.len()
                        ==> crate::client::anc_or_eq(
                        m,
                        (#[trigger] old(self).advertised@[j]).hash,
                        f,
                    ))
            }),
        ensures
            final(self).inv(client.chain()),
            final(self).id == old(self).id,
            final(self).with_runtime == old(self).with_runtime,
            final(self).max_ops == old(self).max_ops,
            final(self).max_storage_items == old(self).max_storage_items,
            final(self).max_pinned_ticks == old(self).max_pinned_ticks,
            final(self).next_op_seq == old(self).next_op_seq,
            final(self).pins@ == old(self).pins@,
            final(self).storage_ops == old(self).storage_ops,
            final(self).ops_in_flight == old(self).ops_in_flight,
            final(self).delivered@ == old(self).delivered@,
            !final(self).stopped,
            ({
                let m = client.chain();
                let pathv = path@;
                let n = m[f].number;
                let pruned = pruned_list(m, orig.advertised@, f, n);
                let best1 = old(self).best;
                &&& final(self).history@ == old(self).history@ + (if crate::client::anc_or_eq(
                    m,
                    f,
                    best1,
                ) {
                    Seq::<EventV>::empty()
                } else {
                    seq![EventV::BestBlockChanged { hash: f }]
                }) + seq![EventV::Finalized { finalized_hashes: pathv, pruned_hashes: pruned }]
                &&& final(self).last_finalized == f
                &&& final(self).best == (if crate::client::anc_or_eq(m, f, best1) {
                    best1
                } else {
                    f
                })
                &&& (forall|i: int|
                    0 <= i < orig.advertised@.len() ==> (
                    #[trigger] final(self).advertised@[i]).hash == orig.advertised@[i].hash
                        && final(self).advertised@[i].reported_pruned == (
                    orig.advertised@[i].reported_pruned || displaced(
                        m,
                        orig.advertised@[i],
                        f,
                        n,
                    )))
            }),
    {
        let ghost m = client.chain();
        let ghost lf = self.last_finalized;
        let ghost pathv = path@;
        let cbest = client.best;
        let wrt = self.with_runtime;
        let ghost orig_sub2 = *self;
        proof {
            assert(pathv.take(pathv.len() as int) =~= pathv);
            lemma_fin_window_entries(*self, m, pathv, adv0, cbest, best0, lf, pathv.len() as int);
        }
        // Report displaced forks, each at most once.
        let fidx = match client.find(f) {
            Some(x) => x,
            None => {
                proof {
                    assert(false);
                }
                0
            },
        };
        let n = client.blocks[fidx].number;
        proof {
            assert(m[f] == client.recs()[fidx as int]);
            assert(m[f].number == n);
        }
        let ghost mid_sub = *self;
        let pruned = self.fin_mark(client, f, n);
        proof {
            // Path announcements are ancestors of the finalized block, so
            // the report covers exactly the advertisements that predate it.
            lemma_pruned_extension(m, orig.advertised@, mid_sub.advertised@, f, n);
            assert(pruned@ =~= pruned_list(m, orig.advertised@, f, n));
        }
        self.fin_emit_tail(
            client,
            path,
            pruned,
            f,
            n,
            Ghost(orig),
            Ghost(mid_sub),
        );
    }
}


/// The hex renderings of a block's extrinsics, in order.
pub open spec fn body_hex(b: Seq<Seq<u8>>) -> Seq<Seq<char>> {
    b.map_values(|x: Seq<u8>| crate::hexcodec::hex_str_of(x))
}

/// The recorded runtime-call outcome for an entry point and argument
/// bytes, if the block's executor was asked about them.
pub open spec fn call_result(
    calls: Seq<crate::client::RuntimeCallV>,
    method: Seq<char>,
    args: Seq<u8>,
) -> Option<Result<Seq<u8>, Seq<char>>>
    decreases calls.len(),
{
    if calls.len() == 0 {
        None
    } else if calls[0].method == method && calls[0].args == args {
        Some(calls[0].result)
    } else {
        call_result(calls.drop_first(), method, args)
    }
}

/// The first paused operation carrying the given id, if any.
pub open spec fn find_op(ops: Seq<StorageOp>, id: Seq<char>) -> Option<int>
    decreases ops.len(),
{
    if ops.len() == 0 {
        None
    } else if ops[0].id@ == id {
        Some(0int)
    } else {
        match find_op(ops.drop_first(), id) {
            Some(i) => Some(i + 1),
            None => None,
        }
    }
}

/// The pinned hashes whose pin is older than the allowance, in pin order.
pub open spec fn expired_pins(pins: Seq<PinnedBlock>, now: u64, max_ticks: u64) -> Seq<u64>
    decreases pins.len(),
{
    if pins.len() == 0 {
        Seq::empty()
    } else {
        expired_pins(pins.drop_last(), now, max_ticks) + (if now > pins.last().inserted_at && now
            - pins.last().inserted_at > max_ticks {
            seq![pins.last().hash]
        } else {
            Seq::empty()
        })
    }
}

impl Subscription {
    /// Removing one pin entry removes exactly its hash from the pinned set.
    proof fn lemma_pinned_remove(pre: Subscription, post: Subscription, i: int)
        requires
            0 <= i < pre.pins@.len(),
            post.pins@ == pre.pins@.remove(i),
            pre.pins_distinct(),
        ensures
            forall|x: u64|
                post.pinned(x) == (pre.pinned(x) && x != pre.pins@[i].hash),
            post.pins_distinct(),
    {
        assert forall|x: u64| post.pinned(x) == (pre.pinned(x) && x != pre.pins@[i].hash) by {
            if post.pinned(x) {
                let j = choose|j: int|
                    0 <= j < post.pins@.len() && (#[trigger] post.pins@[j]).hash == x;
                if j < i {
                    assert(pre.pins@[j].hash == x);
                } else {
                    assert(pre.pins@[j + 1].hash == x);
                }
            }
            if pre.pinned(x) && x != pre.pins@[i].hash {
                let j = choose|j: int|
                    0 <= j < pre.pins@.len() && (#[trigger] pre.pins@[j]).hash == x;
                if j < i {
                    assert(post.pins@[j].hash == x);
                } else {
                    assert(j > i);
                    assert(post.pins@[j - 1].hash == x);
                }
            }
        }
        assert forall|a: int, b: int|
            0 <= a < b < post.pins@.len() implies (#[trigger] post.pins@[a]).hash != (
        #[trigger] post.pins@[b]).hash by {
            let a2 = if a < i {
                a
            } else {
                a + 1
            };
            let b2 = if b < i {
                b
            } else {
                b + 1
            };
            assert(post.pins@[a] == pre.pins@[a2]);
            assert(post.pins@[b] == pre.pins@[b2]);
        }
    }

    /// Releases a batch of pins, all or nothing: every supplied hash must
    /// be currently pinned, each exactly once.
    pub fn unpin(
        &mut self,
        client: &ClientModel,
        g: &mut GlobalPins,
        hashes: &Vec<u64>,
    ) -> (r: Result<(), RpcError>)
        requires
            old(self).inv(client.chain()),
            client.wf(),
            old(g).used >= old(self).pins@.len(),
        ensures
            final(self).inv(client.chain()),
            final(g).cap == old(g).cap,
            unpin_spec(
                *old(self),
                *final(self),
                old(g).used as int,
                final(g).used as int,
                hashes@,
                r,
            ),
    {
        // Validation pass: every hash pinned, no duplicates.
        let mut i: usize = 0;
        while i < hashes.len()
            invariant
                self.inv(client.chain()),
                client.wf(),
                self.pins_distinct(),
                i <= hashes@.len(),
                forall|a: int| 0 <= a < i ==> self.pinned(#[trigger] hashes@[a]),
                forall|a: int, b: int|
                    0 <= a < b < i ==> #[trigger] hashes@[a] != #[trigger] hashes@[b],
            decreases hashes@.len() - i,
        {
            if self.find_pin(hashes[i]).is_none() {
                return Err(RpcError::InvalidBlock);
            }
            let mut j: usize = 0;
            while j < i
                invariant
                    self.inv(client.chain()),
                    j <= i < hashes@.len(),
                    forall|b: int| 0 <= b < j ==> #[trigger] hashes@[b] != hashes@[i as int],
                decreases i - j,
            {
                if hashes[j] == hashes[i] {
                    return Err(RpcError::InvalidBlock);
                }
                j = j + 1;
            }
            i = i + 1;
        }
        // Release pass.
        let ghost orig = *self;
        let ghost orig_used = old(g).used;
        let mut k: usize = 0;
        while k < hashes.len()
            invariant
                g.cap == old(g).cap,
                k <= hashes@.len(),
                self.pins_distinct(),
                *self == (Subscription { pins: self.pins, ..orig }),
                forall|a: int| 0 <= a < hashes@.len() ==> orig.pinned(#[trigger] hashes@[a]),
                forall|a: int, b: int|
                    0 <= a < b < hashes@.len() ==> #[trigger] hashes@[a] != #[trigger] hashes@[b],
                forall|x: u64|
                    self.pinned(x) == (orig.pinned(x) && !hashes@.take(k as int).contains(x)),
                self.pins@.len() == orig.pins@.len() - k,
                g.used == orig_used - k,
                orig_used >= orig.pins@.len(),
            decreases hashes@.len() - k,
        {
            proof {
                assert(self.pinned(hashes@[k as int])) by {
                    if hashes@.take(k as int).contains(hashes@[k as int]) {
                        let a = choose|a: int|
                            0 <= a < k && (#[trigger] hashes@.take(k as int)[a]) == hashes@[k as int];
                        assert(hashes@[a] == hashes@[k as int]);
                    }
                }
            }
            let idx = match self.find_pin(hashes[k]) {
                Some(x) => x,
                None => {
                    proof {
                        assert(false);
                    }
                    0
                },
            };
            let ghost pre = *self;
            let _ = self.pins.remove(idx);
            g.used = g.used - 1;
            proof {
                Self::lemma_pinned_remove(pre, *self, idx as int);
                assert forall|x: u64|
                    self.pinned(x) == (orig.pinned(x) && !hashes@.take(k as int + 1).contains(
                        x,
                    )) by {
                    assert(hashes@.take(k as int + 1)[k as int] == hashes@[k as int]);
                    if hashes@.take(k as int).contains(x) {
                        let a = choose|a: int|
                            0 <= a < k && (#[trigger] hashes@.take(k as int)[a]) == x;
                        assert(hashes@.take(k as int + 1)[a] == x);
                    }
                    if hashes@.take(k as int + 1).contains(x) && x != hashes@[k as int] {
                        let a = choose|a: int|
                            0 <= a < k + 1 && (#[trigger] hashes@.take(k as int + 1)[a]) == x;
                        assert(a < k);
                        assert(hashes@.take(k as int)[a] == x);
                    }
                }
            }
            k = k + 1;
        }
        proof {
            assert(hashes@.take(hashes@.len() as int) =~= hashes@);
            Subscription::lemma_adv_set_same(*self, orig);
            assert(self.trace_inv());
            assert forall|x: u64| self.adv_contains(x) == orig.adv_contains(x) by {
                assert(self.adv_set().contains(x) == self.adv_contains(x));
                assert(orig.adv_set().contains(x) == orig.adv_contains(x));
            }
            assert forall|p: int| 0 <= p < self.pins@.len() implies client.chain().contains_key(
                (#[trigger] self.pins@[p]).hash,
            ) && self.adv_contains(self.pins@[p].hash) by {
                assert(self.pinned(self.pins@[p].hash));
                assert(orig.pinned(self.pins@[p].hash));
                let q = choose|q: int|
                    0 <= q < orig.pins@.len() && (#[trigger] orig.pins@[q]).hash
                        == self.pins@[p].hash;
                assert(orig.adv_contains(orig.pins@[q].hash));
            }
            lemma_inv_from_parts(*self, orig, client.chain());
        }
        Ok(())
    }

    /// The pinned hashes whose pin outlived the allowance, in pin order;
    /// the caller decides to stop the subscription.
    pub fn sweep(&self, now: u64) -> (r: Vec<u64>)
        ensures
            r@ == expired_pins(self.pins@, now, self.max_pinned_ticks),
    {
        let mut out: Vec<u64> = Vec::new();
        let mut i: usize = 0;
        proof {
            assert(self.pins@.take(0) =~= Seq::<PinnedBlock>::empty());
            assert(out@ =~= expired_pins(self.pins@.take(0), now, self.max_pinned_ticks));
        }
        while i < self.pins.len()
            invariant
                i <= self.pins@.len(),
                out@ =~= expired_pins(self.pins@.take(i as int), now, self.max_pinned_ticks),
            decreases self.pins@.len() - i,
        {
            proof {
                assert(self.pins@.take(i as int + 1).drop_last() =~= self.pins@.take(i as int));
                assert(self.pins@.take(i as int + 1).last() == self.pins@[i as int]);
            }
            let p = self.pins[i];
            if now > p.inserted_at && now - p.inserted_at > self.max_pinned_ticks {
                out.push(p.hash);
            }
            i = i + 1;
        }
        proof {
            assert(self.pins@.take(self.pins@.len() as int) =~= self.pins@);
        }
        out
    }

    /// The SCALE-opaque header bytes of a pinned block, hex-encoded.
    pub fn header(&self, client: &ClientModel, h: u64) -> (r: Result<String, RpcError>)
        requires
            self.inv(client.chain()),
            client.wf(),
        ensures
            r is Ok <==> self.pinned(h),
            r matches Ok(v) ==> v@ == crate::hexcodec::hex_str_of(client.chain()[h].header),
            r is Err ==> r == Result::<String, RpcError>::Err(RpcError::InvalidBlock),
    {
        if self.find_pin(h).is_none() {
            return Err(RpcError::InvalidBlock);
        }
        let bi = match client.find(h) {
            Some(x) => x,
            None => {
                proof {
                    let pi = choose|pi: int|
                        0 <= pi < self.pins@.len() && (#[trigger] self.pins@[pi]).hash == h;
                    assert(false);
                }
                0
            },
        };
        Ok(crate::hexcodec::hex_string(&client.blocks[bi].header))
    }
}


/// Appending one paused operation adds its slots to the total.
proof fn lemma_sum_slots_push(s: Seq<StorageOp>, op: StorageOp)
    ensures
        sum_slots(s.push(op)) == sum_slots(s) + op.slots,
{
    assert(s.push(op).drop_last() =~= s);
    assert(s.push(op).last() == op);
}

/// Removing one paused operation subtracts its slots from the total.
proof fn lemma_sum_slots_remove(s: Seq<StorageOp>, i: int)
    requires
        0 <= i < s.len(),
    ensures
        sum_slots(s.remove(i)) == sum_slots(s) - s[i].slots,
    decreases s.len(),
{
    if i == s.len() - 1 {
        assert(s.remove(i) =~= s.drop_last());
    } else {
        lemma_sum_slots_remove(s.drop_last(), i);
        assert(s.remove(i).drop_last() =~= s.drop_last().remove(i));
        assert(s.remove(i).last() == s.last());
    }
}

/// Changing one paused operation without touching its slots keeps the
/// total.
proof fn lemma_sum_slots_update(s: Seq<StorageOp>, i: int, op: StorageOp)
    requires
        0 <= i < s.len(),
        op.slots == s[i].slots,
    ensures
        sum_slots(s.update(i, op)) == sum_slots(s),
    decreases s.len(),
{
    if i == s.len() - 1 {
        assert(s.update(i, op).drop_last() =~= s.drop_last());
        assert(s.update(i, op).last() == op);
    } else {
        lemma_sum_slots_update(s.drop_last(), i, op);
        assert(s.update(i, op).drop_last() =~= s.drop_last().update(i, op));
        assert(s.update(i, op).last() == s.last());
    }
}

impl Subscription {
    /// Renders the extrinsics of a block as hex strings.
    fn body_hex_list(body: &Vec<Vec<u8>>) -> (r: Vec<String>)
        ensures
            r@.map_values(|x: String| x@) == body_hex(body@.map_values(|b: Vec<u8>| b@)),
    {
        let ghost bv = body@.map_values(|b: Vec<u8>| b@);
        let mut out: Vec<String> = Vec::new();
        let mut i: usize = 0;
        while i < body.len()
            invariant
                bv == body@.map_values(|b: Vec<u8>| b@),
                i <= body@.len(),
                out@.map_values(|x: String| x@) =~= body_hex(bv.take(i as int)),
            decreases body@.len() - i,
        {
            out.push(crate::hexcodec::hex_string(&body[i]));
            proof {
                assert(out@.map_values(|x: String| x@) =~= body_hex(bv.take(i as int)).push(
                    crate::hexcodec::hex_str_of(bv[i as int]),
                ));
                assert(body_hex(bv.take(i as int + 1)) =~= body_hex(bv.take(i as int)).push(
                    crate::hexcodec::hex_str_of(bv[i as int]),
                ));
            }
            i = i + 1;
        }
        proof {
            assert(bv.take(bv.len() as int) =~= bv);
            assert(out@.map_values(|x: String| x@) =~= body_hex(bv));
        }
        out
    }

    /// Restores the invariant after a fresh operation id was issued and
    /// one event was emitted.
    proof fn lemma_inv_after_op(sub: Subscription, orig: Subscription, m: Map<u64, BlockV>)
        requires
            orig.inv(m),
            sub.trace_inv(),
            sub.pins == orig.pins,
            sub.advertised == orig.advertised,
            sub.storage_ops == orig.storage_ops,
            sub.ops_in_flight == orig.ops_in_flight,
            sub.max_storage_items == orig.max_storage_items,
            sub.max_ops == orig.max_ops,
            sub.best == orig.best,
            sub.last_finalized == orig.last_finalized,
            sub.stopped == orig.stopped,
            orig.next_op_seq <= sub.next_op_seq,
        ensures
            sub.inv(m),
    {
        Subscription::lemma_pinned_same(sub, orig);
        Subscription::lemma_adv_set_same(sub, orig);
        assert forall|x: u64| sub.adv_contains(x) == orig.adv_contains(x) by {
            assert(sub.adv_set().contains(x) == sub.adv_contains(x));
            assert(orig.adv_set().contains(x) == orig.adv_contains(x));
        }
        assert forall|i: int| 0 <= i < sub.pins@.len() implies m.contains_key(
            (#[trigger] sub.pins@[i]).hash,
        ) && sub.adv_contains(sub.pins@[i].hash) by {
            assert(orig.pins@[i] == sub.pins@[i]);
            assert(orig.adv_contains(orig.pins@[i].hash));
        }
        assert(sub.ops_inv(m)) by {
            assert forall|i: int|
                0 <= i < sub.storage_ops@.len() implies {
                    let op = #[trigger] sub.storage_ops@[i];
                    &&& op.seq < sub.next_op_seq
                    &&& op.id@ == dec_str(op.seq as nat)
                    &&& m.contains_key(op.block)
                    &&& op.slots >= 1
                    &&& op.query_idx < op.queries@.len()
                } by {
                assert(orig.storage_ops@[i] == sub.storage_ops@[i]);
            }
        }
    }

    /// Fetches the body of a pinned block: the operation starts, and its
    /// one event reports the hex-encoded extrinsics.
    pub fn body(&mut self, client: &ClientModel, h: u64) -> (r: Result<MethodResponse, RpcError>)
        requires
            old(self).inv(client.chain()),
            client.wf(),
            !old(self).stopped,
            old(self).next_op_seq < u64::MAX,
        ensures
            final(self).inv(client.chain()),
            body_spec(*old(self), *final(self), client.chain(), h, r),
    {
        if self.find_pin(h).is_none() {
            return Err(RpcError::InvalidBlock);
        }
        if self.ops_in_flight >= self.max_ops {
            return Ok(MethodResponse::LimitReached);
        }
        let bi = match client.find(h) {
            Some(x) => x,
            None => {
                proof {
                    let pi = choose|pi: int|
                        0 <= pi < self.pins@.len() && (#[trigger] self.pins@[pi]).hash == h;
                    assert(false);
                }
                0
            },
        };
        let id = crate::decimal::u64_to_dec_string(self.next_op_seq);
        let value = Self::body_hex_list(&client.blocks[bi].body);
        let ghost pre = *self;
        proof {
            assert(client.chain()[h].body == client.recs()[bi as int].body);
            assert(value.deep_view() =~= value@.map_values(|x: String| x@));
        }
        self.emit_plain(
            FollowEvent::OperationBodyDone { operation_id: id.clone(), value },
        );
        let ghost mid = *self;
        self.next_op_seq = self.next_op_seq + 1;
        proof {
            Subscription::lemma_adv_set_same(*self, mid);
            assert(self.trace_inv());
            Subscription::lemma_inv_after_op(*self, pre, client.chain());
        }
        Ok(MethodResponse::Started { operation_id: id, discarded_items: None })
    }

    /// Invokes a runtime entry point at a pinned block: the operation
    /// starts, and its one event carries the hex-encoded output, or the
    /// execution error the block's runtime reported.
    pub fn call(
        &mut self,
        client: &ClientModel,
        h: u64,
        method: &String,
        args_hex: &String,
    ) -> (r: Result<MethodResponse, RpcError>)
        requires
            old(self).inv(client.chain()),
            client.wf(),
            !old(self).stopped,
            old(self).next_op_seq < u64::MAX,
        ensures
            final(self).inv(client.chain()),
            call_spec(*old(self), *final(self), client.chain(), h, method@, args_hex@, r),
    {
        if !self.with_runtime {
            return Err(RpcError::InvalidRuntimeCall);
        }
        if self.find_pin(h).is_none() {
            return Err(RpcError::InvalidBlock);
        }
        let args = match crate::hexcodec::hex_decode(args_hex.as_str()) {
            Ok(v) => v,
            Err(_) => {
                return Err(RpcError::InvalidParam);
            },
        };
        if self.ops_in_flight >= self.max_ops {
            return Ok(MethodResponse::LimitReached);
        }
        let bi = match client.find(h) {
            Some(x) => x,
            None => {
                proof {
                    let pi = choose|pi: int|
                        0 <= pi < self.pins@.len() && (#[trigger] self.pins@[pi]).hash == h;
                    assert(false);
                }
                0
            },
        };
        let id = crate::decimal::u64_to_dec_string(self.next_op_seq);
        // Ask the block's runtime for the recorded outcome.
        let calls = &client.blocks[bi].runtime_calls;
        let ghost cv = client.recs()[bi as int].runtime_calls;
        let mut ci: usize = 0;
        let mut ev: Option<FollowEvent> = None;
        proof {
            assert(cv =~= client.blocks@[bi as int].runtime_calls@.map_values(
                |c: crate::client::RuntimeCallEntry| c@,
            ));
            assert(cv.skip(0) =~= cv);
        }
        while ci < calls.len()
            invariant_except_break
                ev is None,
            invariant
                calls == client.blocks@[bi as int].runtime_calls,
                cv == client.recs()[bi as int].runtime_calls,
                client.wf(),
                bi < client.blocks@.len(),
                ci <= calls@.len(),
                calls@.len() == cv.len(),
                forall|j: int| 0 <= j < cv.len() ==> (#[trigger] cv[j]) == calls@[j]@,
                call_result(cv, method@, args@) == call_result(cv.skip(ci as int), method@, args@),
            ensures
                ev is None ==> ci == calls@.len(),
                ev is Some ==> call_result(cv, method@, args@) is Some,
                ev matches Some(e) ==> e@ == (match call_result(cv, method@, args@) {
                    Some(Ok(out)) => EventV::OperationCallDone {
                        operation_id: id@,
                        output: crate::hexcodec::hex_str_of(out),
                    },
                    Some(Err(er)) => EventV::OperationError { operation_id: id@, error: er },
                    None => EventV::Stop,
                }),
            decreases calls@.len() - ci,
        {
            proof {
                assert(cv.skip(ci as int)[0] == cv[ci as int]);
                assert(cv.skip(ci as int).drop_first() =~= cv.skip(ci as int + 1));
            }
            if calls[ci].method.eq(method) && crate::bytesord::bytes_eq(&calls[ci].args, &args) {
                proof {
                    assert(cv[ci as int] == calls@[ci as int]@);
                    assert(cv[ci as int].method == method@ && cv[ci as int].args == args@);
                    assert(call_result(cv, method@, args@) == Some(cv[ci as int].result));
                }
                match &calls[ci].result {
                    Ok(out) => {
                        let e = FollowEvent::OperationCallDone {
                            operation_id: id.clone(),
                            output: crate::hexcodec::hex_string(out),
                        };
                        proof {
                            assert(cv[ci as int].result == Ok::<Seq<u8>, Seq<char>>(out@));
                        }
                        ev = Some(e);
                    },
                    Err(msg) => {
                        let e = FollowEvent::OperationError {
                            operation_id: id.clone(),
                            error: msg.clone(),
                        };
                        proof {
                            assert(cv[ci as int].result == Err::<Seq<u8>, Seq<char>>(msg@));
                        }
                        ev = Some(e);
                    },
                };
                break ;
            }
            ci = ci + 1;
        }
        let event = match ev {
            Some(e) => e,
            None => {
                proof {
                    assert(cv.skip(cv.len() as int).len() == 0);
                    assert(call_result(cv, method@, args@) is None);
                }
                FollowEvent::OperationError {
                    operation_id: id.clone(),
                    error: "Execution failed: unknown entry point".to_owned(),
                }
            },
        };
        let ghost pre = *self;
        self.emit_plain(event);
        let ghost mid = *self;
        self.next_op_seq = self.next_op_seq + 1;
        proof {
            Subscription::lemma_adv_set_same(*self, mid);
            assert(self.trace_inv());
            Subscription::lemma_inv_after_op(*self, pre, client.chain());
        }
        Ok(MethodResponse::Started { operation_id: id, discarded_items: None })
    }
}


impl Subscription {
    /// The slots of one paused operation never exceed the total in flight.
    proof fn lemma_sum_slots_bound(s: Seq<StorageOp>, i: int)
        requires
            0 <= i < s.len(),
        ensures
            s[i].slots <= sum_slots(s),
        decreases s.len(),
    {
        if i == s.len() - 1 {
            assert(sum_slots(s.drop_last()) >= 0) by {
                Self::lemma_sum_slots_nonneg(s.drop_last());
            }
        } else {
            Self::lemma_sum_slots_bound(s.drop_last(), i);
        }
    }

    /// Slot totals are never negative.
    proof fn lemma_sum_slots_nonneg(s: Seq<StorageOp>)
        ensures
            sum_slots(s) >= 0,
        decreases s.len(),
    {
        if s.len() > 0 {
            Self::lemma_sum_slots_nonneg(s.drop_last());
        }
    }

    /// Emits a batch of operation events.
    fn emit_ops(&mut self, evs: Vec<FollowEvent>)
        requires
            old(self).trace_inv(),
            !old(self).stopped,
            forall|i: int|
                0 <= i < evs@.len() ==> crate::events::event_op_id(#[trigger] evs@[i]@) is Some
                    && crate::events::event_refs(evs@[i]@) == Set::<u64>::empty(),
        ensures
            *final(self) == (Subscription {
                pending: final(self).pending,
                history: final(self).history,
                ..*old(self)
            }),
            final(self).history@ == old(self).history@ + events_view(evs@),
            final(self).trace_inv(),
    {
        let ghost target = events_view(evs@);
        proof {
            assert forall|i: int|
                0 <= i < target.len() implies crate::events::event_op_id(#[trigger] target[i])
                is Some && crate::events::event_refs(target[i]) == Set::<u64>::empty() by {
                assert(target[i] == evs@[i]@);
            }
        }
        let mut evs = evs;
        let mut k: usize = 0;
        let nn = evs.len();
        let ghost n = target.len();
        proof {
            assert(n == nn);
            assert(self.history@ =~= old(self).history@ + target.take(0));
            assert(events_view(evs@) =~= target.skip(0));
        }
        while evs.len() > 0
            invariant
                k <= n,
                n <= usize::MAX,
                n == target.len(),
                events_view(evs@) =~= target.skip(k as int),
                evs@.len() == n - k,
                forall|i: int|
                    0 <= i < target.len() ==> crate::events::event_op_id(#[trigger] target[i])
                        is Some && crate::events::event_refs(target[i]) == Set::<u64>::empty(),
                *self == (Subscription {
                    pending: self.pending,
                    history: self.history,
                    ..*old(self)
                }),
                self.history@ == old(self).history@ + target.take(k as int),
                self.trace_inv(),
                !self.stopped,
            decreases evs@.len(),
        {
            let ghost pre_evs = evs@;
            let e = evs.remove(0);
            proof {
                assert(events_view(pre_evs)[0] == pre_evs[0]@);
                assert(events_view(pre_evs) == target.skip(k as int));
                assert(target.skip(k as int)[0] == target[k as int]);
                assert(e@ == target[k as int]);
                assert(evs@ =~= pre_evs.drop_first());
                assert forall|i: int|
                    0 <= i < evs@.len() implies (#[trigger] events_view(evs@)[i]) == target.skip(
                    k as int + 1,
                )[i] by {
                    assert(events_view(evs@)[i] == evs@[i]@);
                    assert(evs@[i] == pre_evs[i + 1]);
                    assert(events_view(pre_evs)[i + 1] == pre_evs[i + 1]@);
                }
                assert(events_view(evs@) =~= target.skip(k as int + 1));
                assert(crate::events::event_op_id(e@) is Some);
                assert(e@ is OperationBodyDone || e@ is OperationCallDone || e@
                    is OperationStorageItems || e@ is OperationStorageDone || e@
                    is OperationWaitingForContinue || e@ is OperationError);
            }
            let ghost pre = *self;
            self.emit_plain(e);
            proof {
                Subscription::lemma_adv_set_same(*self, pre);
                assert(old(self).history@ + target.take(k as int + 1) =~= (old(self).history@
                    + target.take(k as int)).push(target[k as int]));
            }
            k = k + 1;
        }
        proof {
            assert(target.take(k as int) =~= target);
        }
    }
}


impl Subscription {
    /// Starts a storage operation at a pinned block: queries beyond the
    /// pagination limit or the free admission slots are dropped from the
    /// tail and reported as discarded; the first resumption of the
    /// traversal runs at once, and a paused traversal is parked with its
    /// cursor, holding one admission slot per effective query.
    #[verifier::rlimit(100)]
    pub fn storage_start(
        &mut self,
        client: &ClientModel,
        h: u64,
        queries: Vec<DecodedQuery>,
        child: Option<Vec<u8>>,
    ) -> (r: Result<MethodResponse, RpcError>)
        requires
            old(self).inv(client.chain()),
            client.wf(),
            !old(self).stopped,
            old(self).next_op_seq < u64::MAX,
        ensures
            final(self).inv(client.chain()),
            storage_start_spec(
                *old(self),
                *final(self),
                client.chain(),
                h,
                queries@,
                crate::storage::opt_bytes_view(child),
                r,
            ),
    {
        if self.find_pin(h).is_none() {
            return Err(RpcError::InvalidBlock);
        }
        if self.ops_in_flight >= self.max_ops {
            return Ok(MethodResponse::LimitReached);
        }
        let avail = self.max_ops - self.ops_in_flight;
        let total = queries.len();
        let mut eff = total;
        if eff > self.max_storage_items {
            eff = self.max_storage_items;
        }
        if eff > avail {
            eff = avail;
        }
        let discarded = total - eff;
        let mut q = queries;
        q.truncate(eff);
        proof {
            assert(q@ =~= q@.map_values(|x: DecodedQuery| x));
        }
        let bi = match client.find(h) {
            Some(x) => x,
            None => {
                proof {
                    let pi = choose|pi: int|
                        0 <= pi < self.pins@.len() && (#[trigger] self.pins@[pi]).hash == h;
                    assert(false);
                }
                0
            },
        };
        let empty: Vec<(Vec<u8>, Vec<u8>)> = Vec::new();
        let entries = crate::storage::resolve_entries(client, bi, &child, &empty);
        let id = crate::decimal::u64_to_dec_string(self.next_op_seq);
        let (evs, cursor) = crate::storage::storage_run(
            entries,
            &q,
            self.max_storage_items,
            &id,
            0,
            0,
        );
        proof {
            crate::storage::lemma_run_step_events(
                crate::client::entries_view(entries@),
                crate::storage::queries_view(q@),
                self.max_storage_items as nat,
                id@,
                0,
                0,
            );
            assert forall|i: int|
                0 <= i < evs@.len() implies crate::events::event_op_id(#[trigger] evs@[i]@)
                is Some && crate::events::event_refs(evs@[i]@) == Set::<u64>::empty() by {
                assert(events_view(evs@)[i] == evs@[i]@);
            }
        }
        let ghost pre = *self;
        self.emit_ops(evs);
        let ghost mid = *self;
        let seq0 = self.next_op_seq;
        self.next_op_seq = self.next_op_seq + 1;
        match cursor {
            Some((qi, off)) => {
                let op = StorageOp {
                    seq: seq0,
                    id,
                    block: h,
                    child,
                    queries: q,
                    query_idx: qi,
                    offset: off,
                    slots: eff,
                };
                let ghost pre_push = *self;
                self.storage_ops.push(op);
                self.ops_in_flight = self.ops_in_flight + eff;
                proof {
                    Subscription::lemma_adv_set_same(*self, mid);
                    assert(self.trace_inv());
                    Subscription::lemma_pinned_same(*self, pre);
                    Subscription::lemma_adv_set_same(*self, pre);
                    assert forall|x: u64| self.adv_contains(x) == pre.adv_contains(x) by {
                        assert(self.adv_set().contains(x) == self.adv_contains(x));
                        assert(pre.adv_set().contains(x) == pre.adv_contains(x));
                    }
                    assert forall|i: int| 0 <= i < self.pins@.len() implies client.chain(
                    ).contains_key((#[trigger] self.pins@[i]).hash) && self.adv_contains(
                        self.pins@[i].hash,
                    ) by {
                        assert(pre.pins@[i] == self.pins@[i]);
                        assert(pre.adv_contains(pre.pins@[i].hash));
                    }
                    lemma_sum_slots_push(pre_push.storage_ops@, op);
                    assert(self.inv(client.chain())) by {
                        assert(self.ops_inv(client.chain())) by {
                            assert forall|i: int|
                                0 <= i < self.storage_ops@.len() implies {
                                    let o = #[trigger] self.storage_ops@[i];
                                    &&& o.seq < self.next_op_seq
                                    &&& o.id@ == dec_str(o.seq as nat)
                                    &&& client.chain().contains_key(o.block)
                                    &&& o.slots >= 1
                                    &&& o.query_idx < o.queries@.len()
                                } by {
                                if i < self.storage_ops@.len() - 1 {
                                    assert(pre.storage_ops@[i] == self.storage_ops@[i]);
                                } else {
                                    assert(self.storage_ops@[i] == op);
                                    assert(client.chain().contains_key(h)) by {
                                        assert(pre.adv_contains(h) || true);
                                        let pi = choose|pi: int|
                                            0 <= pi < pre.pins@.len() && (
                                            #[trigger] pre.pins@[pi]).hash == h;
                                    }
                                }
                            }
                            assert forall|i: int, j: int|
                                0 <= i < j < self.storage_ops@.len() implies (
                            #[trigger] self.storage_ops@[i]).seq != (
                            #[trigger] self.storage_ops@[j]).seq by {
                                assert(pre.storage_ops@[i] == self.storage_ops@[i]);
                                if j < self.storage_ops@.len() - 1 {
                                    assert(pre.storage_ops@[j] == self.storage_ops@[j]);
                                }
                            }
                        }
                    }
                }
                Ok(
                    MethodResponse::Started {
                        operation_id: crate::decimal::u64_to_dec_string(seq0),
                        discarded_items: Some(discarded),
                    },
                )
            },
            None => {
                proof {
                    Subscription::lemma_adv_set_same(*self, mid);
                    assert(self.trace_inv());
                    Subscription::lemma_inv_after_op(*self, pre, client.chain());
                }
                Ok(
                    MethodResponse::Started {
                        operation_id: crate::decimal::u64_to_dec_string(seq0),
                        discarded_items: Some(discarded),
                    },
                )
            },
        }
    }
}


impl Subscription {
    /// Finds the paused operation carrying an id.
    fn find_storage_op(&self, id: &String) -> (r: Option<usize>)
        ensures
            match r {
                Some(i) => i < self.storage_ops@.len() && self.storage_ops@[i as int].id@ == id@
                    && (forall|j: int|
                    0 <= j < i ==> (#[trigger] self.storage_ops@[j]).id@ != id@),
                None => forall|j: int|
                    0 <= j < self.storage_ops@.len() ==> (#[trigger] self.storage_ops@[j]).id@
                        != id@,
            },
    {
        let mut i: usize = 0;
        while i < self.storage_ops.len()
            invariant
                i <= self.storage_ops@.len(),
                forall|j: int| 0 <= j < i ==> (#[trigger] self.storage_ops@[j]).id@ != id@,
            decreases self.storage_ops@.len() - i,
        {
            if self.storage_ops[i].id.eq(id) {
                return Some(i);
            }
            i = i + 1;
        }
        None
    }

    /// Resumes a paused storage operation: one further traversal step runs,
    /// and the operation is parked again or completed and released. An
    /// unknown id is a silent no-op.
    #[verifier::rlimit(100)]
    pub fn continue_op(&mut self, client: &ClientModel, id: &String)
        requires
            old(self).inv(client.chain()),
            client.wf(),
            !old(self).stopped,
        ensures
            final(self).inv(client.chain()),
            continue_op_spec(*old(self), *final(self), client.chain(), id@),
    {
        let i = match self.find_storage_op(id) {
            Some(i) => i,
            None => {
                return ;
            },
        };
        let ghost opg = self.storage_ops@[i as int];
        let bi = match client.find(self.storage_ops[i].block) {
            Some(x) => x,
            None => {
                proof {
                    assert(false);
                }
                0
            },
        };
        let empty: Vec<(Vec<u8>, Vec<u8>)> = Vec::new();
        let entries = crate::storage::resolve_entries(
            client,
            bi,
            &self.storage_ops[i].child,
            &empty,
        );
        let (evs, cursor) = crate::storage::storage_run(
            entries,
            &self.storage_ops[i].queries,
            self.max_storage_items,
            &self.storage_ops[i].id,
            self.storage_ops[i].query_idx,
            self.storage_ops[i].offset,
        );
        proof {
            crate::storage::lemma_run_step_events(
                crate::client::entries_view(entries@),
                crate::storage::queries_view(opg.queries@),
                self.max_storage_items as nat,
                opg.id@,
                opg.query_idx as int,
                opg.offset as int,
            );
            assert forall|j: int|
                0 <= j < evs@.len() implies crate::events::event_op_id(#[trigger] evs@[j]@)
                is Some && crate::events::event_refs(evs@[j]@) == Set::<u64>::empty() by {
                assert(events_view(evs@)[j] == evs@[j]@);
            }
        }
        let ghost pre = *self;
        self.emit_ops(evs);
        let ghost mid = *self;
        match cursor {
            Some((qi, off)) => {
                let opref = &mut self.storage_ops[i];
                opref.query_idx = qi;
                opref.offset = off;
                proof {
                    Subscription::lemma_adv_set_same(*self, mid);
                    assert(self.trace_inv());
                    Subscription::lemma_pinned_same(*self, pre);
                    Subscription::lemma_adv_set_same(*self, pre);
                    assert forall|x: u64| self.adv_contains(x) == pre.adv_contains(x) by {
                        assert(self.adv_set().contains(x) == self.adv_contains(x));
                        assert(pre.adv_set().contains(x) == pre.adv_contains(x));
                    }
                    assert forall|p: int| 0 <= p < self.pins@.len() implies client.chain(
                    ).contains_key((#[trigger] self.pins@[p]).hash) && self.adv_contains(
                        self.pins@[p].hash,
                    ) by {
                        assert(pre.pins@[p] == self.pins@[p]);
                        assert(pre.adv_contains(pre.pins@[p].hash));
                    }
                    lemma_sum_slots_update(
                        pre.storage_ops@,
                        i as int,
                        self.storage_ops@[i as int],
                    );
                    assert(self.inv(client.chain())) by {
                        assert(self.ops_inv(client.chain())) by {
                            assert forall|a: int|
                                0 <= a < self.storage_ops@.len() implies {
                                    let o = #[trigger] self.storage_ops@[a];
                                    &&& o.seq < self.next_op_seq
                                    &&& o.id@ == dec_str(o.seq as nat)
                                    &&& client.chain().contains_key(o.block)
                                    &&& o.slots >= 1
                                    &&& o.query_idx < o.queries@.len()
                                } by {
                                if a != i {
                                    assert(pre.storage_ops@[a] == self.storage_ops@[a]);
                                }
                            }
                            assert forall|a: int, b: int|
                                0 <= a < b < self.storage_ops@.len() implies (
                            #[trigger] self.storage_ops@[a]).seq != (
                            #[trigger] self.storage_ops@[b]).seq by {
                                assert(self.storage_ops@[a].seq == pre.storage_ops@[a].seq);
                                assert(self.storage_ops@[b].seq == pre.storage_ops@[b].seq);
                            }
                        }
                    }
                }
            },
            None => {
                let removed = self.storage_ops.remove(i);
                proof {
                    Self::lemma_sum_slots_bound(mid.storage_ops@, i as int);
                    Self::lemma_sum_slots_nonneg(mid.storage_ops@.remove(i as int));
                    lemma_sum_slots_remove(mid.storage_ops@, i as int);
                }
                self.ops_in_flight = self.ops_in_flight - removed.slots;
                proof {
                    Subscription::lemma_adv_set_same(*self, mid);
                    assert(self.trace_inv());
                    Subscription::lemma_pinned_same(*self, pre);
                    Subscription::lemma_adv_set_same(*self, pre);
                    assert forall|x: u64| self.adv_contains(x) == pre.adv_contains(x) by {
                        assert(self.adv_set().contains(x) == self.adv_contains(x));
                        assert(pre.adv_set().contains(x) == pre.adv_contains(x));
                    }
                    assert forall|p: int| 0 <= p < self.pins@.len() implies client.chain(
                    ).contains_key((#[trigger] self.pins@[p]).hash) && self.adv_contains(
                        self.pins@[p].hash,
                    ) by {
                        assert(pre.pins@[p] == self.pins@[p]);
                        assert(pre.adv_contains(pre.pins@[p].hash));
                    }
                    assert(self.inv(client.chain())) by {
                        assert(self.ops_inv(client.chain())) by {
                            assert forall|a: int|
                                0 <= a < self.storage_ops@.len() implies {
                                    let o = #[trigger] self.storage_ops@[a];
                                    &&& o.seq < self.next_op_seq
                                    &&& o.id@ == dec_str(o.seq as nat)
                                    &&& client.chain().contains_key(o.block)
                                    &&& o.slots >= 1
                                    &&& o.query_idx < o.queries@.len()
                                } by {
                                if a < i {
                                    assert(pre.storage_ops@[a] == self.storage_ops@[a]);
                                } else {
                                    assert(pre.storage_ops@[a + 1] == self.storage_ops@[a]);
                                }
                            }
                            assert forall|a: int, b: int|
                                0 <= a < b < self.storage_ops@.len() implies (
                            #[trigger] self.storage_ops@[a]).seq != (
                            #[trigger] self.storage_ops@[b]).seq by {
                                let a2 = if a < i {
                                    a
                                } else {
                                    a + 1
                                };
                                let b2 = if b < i {
                                    b
                                } else {
                                    b + 1
                                };
                                assert(self.storage_ops@[a] == pre.storage_ops@[a2]);
                                assert(self.storage_ops@[b] == pre.storage_ops@[b2]);
                            }
                        }
                    }
                }
            },
        }
    }

    /// Cancels a paused storage operation: it is dropped with no further
    /// event, and its admission slots are released. An unknown id is a
    /// silent no-op.
    pub fn stop_operation(&mut self, client: &ClientModel, id: &String)
        requires
            old(self).inv(client.chain()),
            client.wf(),
        ensures
            final(self).inv(client.chain()),
            stop_operation_spec(*old(self), *final(self), id@),
    {
        let i = match self.find_storage_op(id) {
            Some(i) => i,
            None => {
                return ;
            },
        };
        let ghost pre = *self;
        let removed = self.storage_ops.remove(i);
        proof {
            Self::lemma_sum_slots_bound(pre.storage_ops@, i as int);
            lemma_sum_slots_remove(pre.storage_ops@, i as int);
        }
        self.ops_in_flight = self.ops_in_flight - removed.slots;
        proof {
            Subscription::lemma_adv_set_same(*self, pre);
            assert(self.trace_inv());
            Subscription::lemma_pinned_same(*self, pre);
            assert forall|x: u64| self.adv_contains(x) == pre.adv_contains(x) by {
                assert(self.adv_set().contains(x) == self.adv_contains(x));
                assert(pre.adv_set().contains(x) == pre.adv_contains(x));
            }
            assert forall|p: int| 0 <= p < self.pins@.len() implies client.chain().contains_key(
                (#[trigger] self.pins@[p]).hash,
            ) && self.adv_contains(self.pins@[p].hash) by {
                assert(pre.pins@[p] == self.pins@[p]);
                assert(pre.adv_contains(pre.pins@[p].hash));
            }
            assert(self.inv(client.chain())) by {
                assert(self.ops_inv(client.chain())) by {
                    assert forall|a: int|
                        0 <= a < self.storage_ops@.len() implies {
                            let o = #[trigger] self.storage_ops@[a];
                            &&& o.seq < self.next_op_seq
                            &&& o.id@ == dec_str(o.seq as nat)
                            &&& client.chain().contains_key(o.block)
                            &&& o.slots >= 1
                            &&& o.query_idx < o.queries@.len()
                        } by {
                        if a < i {
                            assert(pre.storage_ops@[a] == self.storage_ops@[a]);
                        } else {
                            assert(pre.storage_ops@[a + 1] == self.storage_ops@[a]);
                        }
                    }
                    assert forall|a: int, b: int|
                        0 <= a < b < self.storage_ops@.len() implies (
                    #[trigger] self.storage_ops@[a]).seq != (#[trigger] self.storage_ops@[b]).seq by {
                        let a2 = if a < i {
                            a
                        } else {
                            a + 1
                        };
                        let b2 = if b < i {
                            b
                        } else {
                            b + 1
                        };
                        assert(self.storage_ops@[a] == pre.storage_ops@[a2]);
                        assert(self.storage_ops@[b] == pre.storage_ops@[b2]);
                    }
                }
            }
        }
    }
}


impl Subscription {
    /// Hands the next undelivered event to the subscriber.
    pub fn poll_event(&mut self, client: &ClientModel) -> (r: Option<FollowEvent>)
        requires
            old(self).inv(client.chain()),
            client.wf(),
        ensures
            final(self).inv(client.chain()),
            poll_event_spec(*old(self), *final(self), r),
    {
        if self.pending.len() == 0 {
            return None;
        }
        let ghost pre = *self;
        let e = self.pending.remove(0);
        proof {
            self.delivered@ = self.delivered@ + 1;
            assert(self.pending@ =~= pre.pending@.drop_first());
            assert forall|i: int|
                0 <= i < self.pending@.len() implies (#[trigger] events_view(self.pending@)[i])
                == self.history@.skip(self.delivered@)[i] by {
                assert(events_view(self.pending@)[i] == self.pending@[i]@);
                assert(self.pending@[i] == pre.pending@[i + 1]);
                assert(events_view(pre.pending@)[i + 1] == pre.pending@[i + 1]@);
                assert(events_view(pre.pending@)[i + 1] == pre.history@.skip(pre.delivered@)[i
                    + 1]);
            }
            assert(events_view(self.pending@) =~= self.history@.skip(self.delivered@));
            Subscription::lemma_adv_set_same(*self, pre);
            assert(self.trace_inv());
            Subscription::lemma_pinned_same(*self, pre);
            assert forall|x: u64| self.adv_contains(x) == pre.adv_contains(x) by {
                assert(self.adv_set().contains(x) == self.adv_contains(x));
                assert(pre.adv_set().contains(x) == pre.adv_contains(x));
            }
            assert forall|p: int| 0 <= p < self.pins@.len() implies client.chain().contains_key(
                (#[trigger] self.pins@[p]).hash,
            ) && self.adv_contains(self.pins@[p].hash) by {
                assert(pre.pins@[p] == self.pins@[p]);
                assert(pre.adv_contains(pre.pins@[p].hash));
            }
            lemma_inv_from_parts(*self, pre, client.chain());
        }
        Some(e)
    }
}

/// Whether a runtime change is reported: the subscription reports runtimes
/// and the block's version differs from its parent's.
fn self_runtime_differs(with_runtime: bool, rt: u64, prt: u64) -> (r: bool)
    ensures
        r == (with_runtime && rt != prt),
{
    with_runtime && rt != prt
}

} // verus!
