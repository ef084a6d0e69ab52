//! The engine's model of the client it follows: a block tree of
//! parent-pointer records rooted at genesis, the client's reported finalized
//! and best blocks, per-block data (header bytes, extrinsics, storage
//! entries, runtime version, runtime call results). Import and finality
//! notifications refer to blocks of this tree; the subscription logic
//! computes ancestor chains and pruned forks from it. The backend's pin
//! reference count of a block is the number of subscriptions pinning it.

use vstd::prelude::*;

use crate::bytesord::{bytes_eq, is_prefix_of, lex_lt};

verus! {

/// The outcome the runtime executor reports for one entry point invocation
/// at one block: output bytes, or an execution error message.
pub struct RuntimeCallEntry {
    pub method: String,
    pub args: Vec<u8>,
    pub result: Result<Vec<u8>, String>,
}

/// Spec view of `RuntimeCallEntry`.
pub struct RuntimeCallV {
    pub method: Seq<char>,
    pub args: Seq<u8>,
    pub result: Result<Seq<u8>, Seq<char>>,
}

impl View for RuntimeCallEntry {
    type V = RuntimeCallV;

    open spec fn view(&self) -> RuntimeCallV {
        RuntimeCallV {
            method: self.method@,
            args: self.args@,
            result: match &self.result {
                Ok(v) => Ok(v@),
                Err(e) => Err(e@),
            },
        }
    }
}

/// One block of the tree, with the data the engine can be asked for.
pub struct BlockRecord {
    pub hash: u64,
    pub parent: u64,
    pub number: u64,
    pub header: Vec<u8>,
    pub body: Vec<Vec<u8>>,
    pub storage: Vec<(Vec<u8>, Vec<u8>)>,
    pub child_storage: Vec<(Vec<u8>, Vec<(Vec<u8>, Vec<u8>)>)>,
    pub runtime_version: u64,
    pub runtime_calls: Vec<RuntimeCallEntry>,
}

/// Spec view of `BlockRecord`.
pub struct BlockV {
    pub hash: u64,
    pub parent: u64,
    pub number: u64,
    pub header: Seq<u8>,
    pub body: Seq<Seq<u8>>,
    pub storage: Seq<(Seq<u8>, Seq<u8>)>,
    pub child_storage: Seq<(Seq<u8>, Seq<(Seq<u8>, Seq<u8>)>)>,
    pub runtime_version: u64,
    pub runtime_calls: Seq<RuntimeCallV>,
}

impl View for BlockRecord {
    type V = BlockV;

    open spec fn view(&self) -> BlockV {
        BlockV {
            hash: self.hash,
            parent: self.parent,
            number: self.number,
            header: self.header@,
            body: self.body@.map_values(|b: Vec<u8>| b@),
            storage: entries_view(self.storage@),
            child_storage: self.child_storage@.map_values(
                |c: (Vec<u8>, Vec<(Vec<u8>, Vec<u8>)>)| (c.0@, entries_view(c.1@)),
            ),
            runtime_version: self.runtime_version,
            runtime_calls: self.runtime_calls@.map_values(|c: RuntimeCallEntry| c@),
        }
    }
}

/// The spec view of a list of storage entries.
pub open spec fn entries_view(s: Seq<(Vec<u8>, Vec<u8>)>) -> Seq<(Seq<u8>, Seq<u8>)> {
    s.map_values(|p: (Vec<u8>, Vec<u8>)| (p.0@, p.1@))
}

/// Storage entries with strictly increasing keys in raw-byte order.
pub open spec fn entries_sorted(s: Seq<(Seq<u8>, Seq<u8>)>) -> bool {
    forall|i: int| 0 <= i < s.len() - 1 ==> lex_lt(#[trigger] s[i].0, s[i + 1].0)
}

/// Well-formedness of one block's own data: main and child storage sorted.
pub open spec fn block_data_wf(b: BlockV) -> bool {
    &&& entries_sorted(b.storage)
    &&& forall|i: int|
        0 <= i < b.child_storage.len() ==> entries_sorted(#[trigger] b.child_storage[i].1)
}

/// The block map of a record sequence: hash to block view, later records
/// shadowing earlier ones (well-formed models have distinct hashes).
pub open spec fn chain_map_of(s: Seq<BlockV>) -> Map<u64, BlockV>
    decreases s.len(),
{
    if s.len() == 0 {
        Map::empty()
    } else {
        chain_map_of(s.drop_last()).insert(s.last().hash, s.last())
    }
}

/// Whether block `a` is `b` or an ancestor of `b` in block map `m`,
/// following parent pointers from `b`.
pub open spec fn anc_or_eq(m: Map<u64, BlockV>, a: u64, b: u64) -> bool
    decreases (if m.contains_key(b) {
        m[b].number as int
    } else {
        0
    }),
{
    a == b || {
        &&& m.contains_key(b)
        &&& m[b].number > 0
        &&& m.contains_key(m[b].parent)
        &&& m[m[b].parent].number < m[b].number
        &&& anc_or_eq(m, a, m[b].parent)
    }
}

/// The ordered chain of hashes from `a` (exclusive) to `b` (inclusive)
/// along parent pointers; meaningful when `a` is an ancestor-or-self of `b`.
pub open spec fn chain_between(m: Map<u64, BlockV>, a: u64, b: u64) -> Seq<u64>
    decreases (if m.contains_key(b) {
        m[b].number as int
    } else {
        0
    }),
{
    if a == b || !m.contains_key(b) {
        Seq::empty()
    } else if m[b].number > 0 && m.contains_key(m[b].parent) && m[m[b].parent].number
        < m[b].number {
        chain_between(m, a, m[b].parent) + seq![b]
    } else {
        seq![b]
    }
}

/// Some earlier record carries the parent hash of record `i`.
pub open spec fn has_parent_before(s: Seq<BlockV>, i: int) -> bool {
    exists|j: int| 0 <= j < i && (#[trigger] s[j]).hash == s[i].parent
}

/// Parents stand earlier than their children in the import order.
#[verifier::opaque]
pub open spec fn parents_first(s: Seq<BlockV>) -> bool {
    forall|i: int| 0 < i < s.len() ==> #[trigger] has_parent_before(s, i)
}

/// Appending a block whose parent is already present keeps parents first.
pub proof fn lemma_parents_first_push(s: Seq<BlockV>, b: BlockV)
    requires
        parents_first(s),
        exists|j: int| 0 <= j < s.len() && (#[trigger] s[j]).hash == b.parent,
    ensures
        parents_first(s.push(b)),
{
    reveal(parents_first);
    let t = s.push(b);
    assert forall|i: int| 0 < i < t.len() implies #[trigger] has_parent_before(t, i) by {
        if i < t.len() - 1 {
            assert(t[i] == s[i]);
            assert(has_parent_before(s, i));
            let j = choose|j: int| 0 <= j < i && (#[trigger] s[j]).hash == s[i].parent;
            assert(t[j].hash == t[i].parent);
        } else {
            assert(t[i] == b);
            let j = choose|j: int| 0 <= j < s.len() && (#[trigger] s[j]).hash == b.parent;
            assert(t[j].hash == t[i].parent);
        }
    }
}

/// Parent-pointer consistency of a block map: every non-genesis block's
/// parent is present, one level up.
pub open spec fn map_wf(m: Map<u64, BlockV>) -> bool {
    forall|h: u64|
        m.contains_key(h) && #[trigger] m[h].number > 0 ==> {
            &&& m.contains_key(m[h].parent)
            &&& m[m[h].parent].number + 1 == m[h].number
            &&& m[h].parent != h
        }
}

/// The engine's model of the followed client.
pub struct ClientModel {
    /// Blocks in import order; genesis first.
    pub blocks: Vec<BlockRecord>,
    /// The client's latest finalized block.
    pub finalized: u64,
    /// The client's best block.
    pub best: u64,
}

impl ClientModel {
    /// The record views, in import order.
    pub open spec fn recs(&self) -> Seq<BlockV> {
        self.blocks@.map_values(|b: BlockRecord| b@)
    }

    /// The block tree as a map from hash to block.
    pub open spec fn chain(&self) -> Map<u64, BlockV> {
        chain_map_of(self.recs())
    }

    pub open spec fn wf(&self) -> bool {
        &&& self.blocks@.len() > 0
        &&& (forall|i: int, j: int|
            0 <= i < j < self.recs().len() ==> (#[trigger] self.recs()[i]).hash != (
            #[trigger] self.recs()[j]).hash)
        &&& self.recs()[0].number == 0
        &&& (forall|i: int|
            0 < i < self.recs().len() ==> {
                &&& self.chain().contains_key((#[trigger] self.recs()[i]).parent)
                &&& self.chain()[self.recs()[i].parent].number + 1 == self.recs()[i].number
            })
        &&& parents_first(self.recs())
        &&& (forall|i: int|
            0 <= i < self.recs().len() ==> block_data_wf(#[trigger] self.recs()[i]))
        &&& self.chain().contains_key(self.finalized)
        &&& self.chain().contains_key(self.best)
        &&& anc_or_eq(self.chain(), self.finalized, self.best)
    }

    /// The records are exactly the entries of the chain map.
    pub proof fn lemma_chain_index(&self)
        requires
            forall|i: int, j: int|
                0 <= i < j < self.recs().len() ==> (#[trigger] self.recs()[i]).hash != (
                #[trigger] self.recs()[j]).hash,
        ensures
            forall|i: int|
                0 <= i < self.recs().len() ==> self.chain().contains_key(
                    (#[trigger] self.recs()[i]).hash,
                ) && self.chain()[self.recs()[i].hash] == self.recs()[i],
            forall|h: u64|
                self.chain().contains_key(h) ==> exists|i: int|
                    0 <= i < self.recs().len() && (#[trigger] self.recs()[i]).hash == h,
    {
        lemma_chain_map_of_index(self.recs());
    }
}

/// Every record of a distinct-hash sequence is in its chain map, at its own
/// view; and every key of the map comes from some record.
pub proof fn lemma_chain_map_of_index(s: Seq<BlockV>)
    requires
        forall|i: int, j: int|
            0 <= i < j < s.len() ==> (#[trigger] s[i]).hash != (#[trigger] s[j]).hash,
    ensures
        forall|i: int|
            0 <= i < s.len() ==> chain_map_of(s).contains_key((#[trigger] s[i]).hash)
                && chain_map_of(s)[s[i].hash] == s[i],
        forall|h: u64|
            chain_map_of(s).contains_key(h) ==> exists|i: int|
                0 <= i < s.len() && (#[trigger] s[i]).hash == h,
    decreases s.len(),
{
    if s.len() > 0 {
        lemma_chain_map_of_index(s.drop_last());
        assert forall|i: int| 0 <= i < s.len() implies chain_map_of(s).contains_key(
            (#[trigger] s[i]).hash,
        ) && chain_map_of(s)[s[i].hash] == s[i] by {
            if i < s.len() - 1 {
                assert(s.drop_last()[i] == s[i]);
                assert(s[i].hash != s.last().hash);
            }
        }
        assert forall|h: u64| chain_map_of(s).contains_key(h) implies exists|i: int|
            0 <= i < s.len() && (#[trigger] s[i]).hash == h by {
            if h == s.last().hash {
                assert(s[s.len() - 1].hash == h);
            } else {
                assert(chain_map_of(s.drop_last()).contains_key(h));
                let i = choose|i: int|
                    0 <= i < s.drop_last().len() && (#[trigger] s.drop_last()[i]).hash == h;
                assert(s.drop_last()[i] == s[i]);
                assert(s[i].hash == h);
            }
        }
    }
}

/// Appending one record extends the chain map by one entry.
pub proof fn lemma_chain_map_of_push(s: Seq<BlockV>, b: BlockV)
    ensures
        chain_map_of(s.push(b)) == chain_map_of(s).insert(b.hash, b),
{
    assert(s.push(b).drop_last() =~= s);
    assert(s.push(b).last() == b);
}

/// An ancestor is no higher than its descendant, and is itself in the map
/// (unless equal to the descendant).
pub proof fn lemma_anc_number(m: Map<u64, BlockV>, a: u64, b: u64)
    requires
        anc_or_eq(m, a, b),
        a != b,
    ensures
        m.contains_key(a) ==> m[a].number < (if m.contains_key(b) {
            m[b].number as int
        } else {
            0
        }),
        m.contains_key(b),
        m.contains_key(a),
    decreases (if m.contains_key(b) {
        m[b].number as int
    } else {
        0
    }),
{
    let p = m[b].parent;
    if a == p {
    } else {
        lemma_anc_number(m, a, p);
    }
}

/// Adding a block under a fresh hash changes no ancestry among the
/// blocks already present.
pub proof fn lemma_anc_insert_fresh(m: Map<u64, BlockV>, h: u64, v: BlockV, a: u64, b: u64)
    requires
        map_wf(m),
        m.contains_key(b),
        !m.contains_key(h),
    ensures
        anc_or_eq(m.insert(h, v), a, b) == anc_or_eq(m, a, b),
    decreases m[b].number,
{
    if a != b && m[b].number > 0 {
        lemma_anc_insert_fresh(m, h, v, a, m[b].parent);
    }
}

/// The shape of the chain between an ancestor and a descendant: a
/// parent-linked segment that starts just above `a` and ends at `b`.
pub proof fn lemma_chain_between_props(m: Map<u64, BlockV>, a: u64, b: u64)
    requires
        map_wf(m),
        m.contains_key(b),
        anc_or_eq(m, a, b),
    ensures
        ({
            let p = chain_between(m, a, b);
            &&& (a == b ==> p.len() == 0)
            &&& (a != b ==> p.len() == m[b].number - m[a].number && p.len() > 0 && p.last() == b)
            &&& forall|i: int|
                0 <= i < p.len() ==> {
                    &&& m.contains_key(#[trigger] p[i])
                    &&& m[p[i]].number == m[a].number + 1 + i
                    &&& m[p[i]].parent == (if i == 0 {
                        a
                    } else {
                        p[i - 1]
                    })
                    &&& anc_or_eq(m, a, p[i])
                    &&& anc_or_eq(m, p[i], b)
                }
        }),
    decreases m[b].number,
{
    if a != b {
        lemma_anc_number(m, a, b);
        let pb = m[b].parent;
        lemma_chain_between_props(m, a, pb);
        let q = chain_between(m, a, pb);
        let p = chain_between(m, a, b);
        assert(p =~= q + seq![b]);
        assert forall|i: int| 0 <= i < p.len() implies {
            &&& m.contains_key(#[trigger] p[i])
            &&& m[p[i]].number == m[a].number + 1 + i
            &&& m[p[i]].parent == (if i == 0 {
                a
            } else {
                p[i - 1]
            })
            &&& anc_or_eq(m, a, p[i])
            &&& anc_or_eq(m, p[i], b)
        } by {
            if i < q.len() {
                assert(q[i] == p[i]);
                if i > 0 {
                    assert(q[i - 1] == p[i - 1]);
                }
                lemma_anc_trans(m, q[i], pb, b);
            } else {
                assert(p[i] == b);
                if q.len() == 0 {
                    assert(pb == a);
                } else {
                    assert(p[i - 1] == q.last());
                    assert(q.last() == pb);
                }
            }
        }
    }
}

/// Ancestry is transitive.
pub proof fn lemma_anc_trans(m: Map<u64, BlockV>, a: u64, b: u64, c: u64)
    requires
        anc_or_eq(m, a, b),
        anc_or_eq(m, b, c),
    ensures
        anc_or_eq(m, a, c),
    decreases (if m.contains_key(c) {
        m[c].number as int
    } else {
        0
    }),
{
    if b == c {
    } else {
        let p = m[c].parent;
        lemma_anc_trans(m, a, b, p);
    }
}

impl ClientModel {
    /// The parent relation of the block map is well formed.
    pub proof fn lemma_map_wf(&self)
        requires
            self.wf(),
        ensures
            map_wf(self.chain()),
    {
        self.lemma_chain_index();
        let m = self.chain();
        assert forall|h: u64| m.contains_key(h) && #[trigger] m[h].number > 0 implies {
            &&& m.contains_key(m[h].parent)
            &&& m[m[h].parent].number + 1 == m[h].number
            &&& m[h].parent != h
        } by {
            let i = choose|i: int| 0 <= i < self.recs().len() && (#[trigger] self.recs()[i]).hash == h;
            assert(m[h] == self.recs()[i]);
            if i == 0 {
                assert(self.recs()[0].number == 0);
            } else {
                assert(m.contains_key(self.recs()[i].parent));
                if m[h].parent == h {
                    assert(m[m[h].parent].number + 1 == m[h].number);
                }
            }
        }
    }

    /// A fresh model holding only the genesis block, finalized and best.
    pub fn new(genesis: BlockRecord) -> (r: ClientModel)
        requires
            genesis.number == 0,
            block_data_wf(genesis@),
        ensures
            r.wf(),
            r.chain() == Map::<u64, BlockV>::empty().insert(genesis.hash, genesis@),
            r.finalized == genesis.hash,
            r.best == genesis.hash,
    {
        let h = genesis.hash;
        let ghost g = genesis@;
        let mut blocks: Vec<BlockRecord> = Vec::new();
        blocks.push(genesis);
        let r = ClientModel { blocks, finalized: h, best: h };
        proof {
            let s0 = Seq::<BlockV>::empty();
            assert(r.recs() =~= s0.push(g));
            lemma_chain_map_of_push(s0, g);
            assert(chain_map_of(s0) =~= Map::<u64, BlockV>::empty());
            assert(r.chain() == chain_map_of(s0.push(g)));
            assert(parents_first(r.recs())) by {
                reveal(parents_first);
            }
        }
        r
    }

    /// Looks a block up by hash.
    pub fn find(&self, h: u64) -> (r: Option<usize>)
        requires
            self.wf(),
        ensures
            match r {
                Some(i) => {
                    &&& i < self.blocks@.len()
                    &&& self.recs()[i as int].hash == h
                    &&& self.chain().contains_key(h)
                    &&& self.chain()[h] == self.recs()[i as int]
                },
                None => !self.chain().contains_key(h),
            },
    {
        proof {
            self.lemma_chain_index();
        }
        let mut i: usize = 0;
        while i < self.blocks.len()
            invariant
                self.wf(),
                i <= self.blocks@.len(),
                forall|j: int| 0 <= j < i ==> (#[trigger] self.recs()[j]).hash != h,
                forall|k: int|
                    0 <= k < self.recs().len() ==> self.chain().contains_key(
                        (#[trigger] self.recs()[k]).hash,
                    ) && self.chain()[self.recs()[k].hash] == self.recs()[k],
                forall|x: u64|
                    self.chain().contains_key(x) ==> exists|k: int|
                        0 <= k < self.recs().len() && (#[trigger] self.recs()[k]).hash == x,
            decreases self.blocks@.len() - i,
        {
            if self.blocks[i].hash == h {
                return Some(i);
            }
            i = i + 1;
        }
        proof {
            if self.chain().contains_key(h) {
                let k = choose|k: int|
                    0 <= k < self.recs().len() && (#[trigger] self.recs()[k]).hash == h;
                assert(self.recs()[k].hash != h);
            }
        }
        None
    }

    /// Whether block `h` is known to the client.
    pub fn contains_block(&self, h: u64) -> (r: bool)
        requires
            self.wf(),
        ensures
            r == self.chain().contains_key(h),
    {
        self.find(h).is_some()
    }

    /// Whether `a` is `b` or an ancestor of `b`.
    pub fn is_ancestor(&self, a: u64, b: u64) -> (r: bool)
        requires
            self.wf(),
            self.chain().contains_key(b),
        ensures
            r == anc_or_eq(self.chain(), a, b),
    {
        proof {
            self.lemma_map_wf();
        }
        let ghost m = self.chain();
        let mut cur = b;
        loop
            invariant
                self.wf(),
                map_wf(m),
                m == self.chain(),
                m.contains_key(cur),
                anc_or_eq(m, a, b) == anc_or_eq(m, a, cur),
            decreases m[cur].number,
        {
            if cur == a {
                return true;
            }
            let i = match self.find(cur) {
                Some(i) => i,
                None => {
                    proof {
                        assert(false);
                    }
                    0
                },
            };
            let number = self.blocks[i].number;
            if number == 0 {
                proof {
                    assert(m[cur].number == 0);
                    assert(!anc_or_eq(m, a, cur));
                }
                return false;
            }
            let next = self.blocks[i].parent;
            proof {
                assert(m[cur].number > 0);
                assert(anc_or_eq(m, a, cur) == anc_or_eq(m, a, m[cur].parent));
            }
            cur = next;
        }
    }

    /// The ordered chain of hashes from `a` (exclusive) to `b` (inclusive).
    pub fn path_between(&self, a: u64, b: u64) -> (r: Vec<u64>)
        requires
            self.wf(),
            self.chain().contains_key(b),
            anc_or_eq(self.chain(), a, b),
        ensures
            r@ == chain_between(self.chain(), a, b),
    {
        proof {
            self.lemma_map_wf();
        }
        let ghost m = self.chain();
        let mut acc: Vec<u64> = Vec::new();
        let mut cur = b;
        proof {
            assert(chain_between(m, a, b) =~= chain_between(m, a, cur) + acc@.reverse());
        }
        while cur != a
            invariant
                self.wf(),
                map_wf(m),
                m == self.chain(),
                m.contains_key(cur),
                anc_or_eq(m, a, cur),
                chain_between(m, a, b) =~= chain_between(m, a, cur) + acc@.reverse(),
            decreases m[cur].number,
        {
            let i = match self.find(cur) {
                Some(i) => i,
                None => {
                    proof {
                        assert(false);
                    }
                    0
                },
            };
            let ghost old_acc = acc@;
            let ghost old_cur = cur;
            acc.push(cur);
            cur = self.blocks[i].parent;
            proof {
                assert(m[old_cur].number > 0);
                assert(chain_between(m, a, old_cur) =~= chain_between(m, a, cur) + seq![old_cur]);
                assert(acc@.reverse() =~= seq![old_cur] + old_acc.reverse());
                assert(chain_between(m, a, b) =~= chain_between(m, a, cur) + acc@.reverse());
            }
        }
        proof {
            assert(chain_between(m, a, cur) =~= Seq::<u64>::empty());
            assert(chain_between(m, a, b) =~= acc@.reverse());
        }
        let mut out: Vec<u64> = Vec::new();
        let mut i: usize = acc.len();
        while i > 0
            invariant
                i <= acc@.len(),
                out@ =~= acc@.skip(i as int).reverse(),
            decreases i,
        {
            i = i - 1;
            out.push(acc[i]);
            proof {
                assert(out@ =~= acc@.skip(i as int).reverse());
            }
        }
        proof {
            assert(acc@.skip(0) =~= acc@);
            assert(out@ =~= chain_between(m, a, b));
        }
        out
    }

    /// Whether some descendant-or-self of `b` has height at least `n`.
    #[verifier::rlimit(100)]
    pub fn has_descendant_at_least(&self, b: u64, n: u64) -> (r: bool)
        requires
            self.wf(),
        ensures
            r == exists|x: u64|
                self.chain().contains_key(x) && anc_or_eq(self.chain(), b, x)
                    && #[trigger] self.chain()[x].number >= n,
    {
        proof {
            self.lemma_chain_index();
        }
        let mut i: usize = 0;
        while i < self.blocks.len()
            invariant
                self.wf(),
                i <= self.blocks@.len(),
                forall|j: int|
                    0 <= j < i ==> !((#[trigger] self.recs()[j]).number >= n && anc_or_eq(
                        self.chain(),
                        b,
                        self.recs()[j].hash,
                    )),
                forall|k: int|
                    0 <= k < self.recs().len() ==> self.chain().contains_key(
                        (#[trigger] self.recs()[k]).hash,
                    ) && self.chain()[self.recs()[k].hash] == self.recs()[k],
                forall|x: u64|
                    self.chain().contains_key(x) ==> exists|k: int|
                        0 <= k < self.recs().len() && (#[trigger] self.recs()[k]).hash == x,
            decreases self.blocks@.len() - i,
        {
            let num = self.blocks[i].number;
            let h = self.blocks[i].hash;
            proof {
                assert(self.recs()[i as int] == self.blocks@[i as int]@);
                assert(self.recs()[i as int].hash == h);
                assert(self.chain().contains_key(h));
                assert(self.chain()[h] == self.recs()[i as int]);
            }
            if num >= n {
                if self.is_ancestor(b, h) {
                    proof {
                        assert(self.chain().contains_key(h) && anc_or_eq(self.chain(), b, h)
                            && self.chain()[h].number >= n);
                    }
                    return true;
                }
            }
            i = i + 1;
        }
        proof {
            if exists|x: u64|
                self.chain().contains_key(x) && anc_or_eq(self.chain(), b, x)
                    && #[trigger] self.chain()[x].number >= n {
                let x = choose|x: u64|
                    self.chain().contains_key(x) && anc_or_eq(self.chain(), b, x)
                        && #[trigger] self.chain()[x].number >= n;
                let k = choose|k: int|
                    0 <= k < self.recs().len() && (#[trigger] self.recs()[k]).hash == x;
                assert(!(self.recs()[k].number >= n && anc_or_eq(
                    self.chain(),
                    b,
                    self.recs()[k].hash,
                )));
            }
        }
        false
    }

    /// The client imports a block: it becomes part of the tree, and the
    /// client's best block if so flagged.
    pub fn import_block(&mut self, rec: BlockRecord, make_best: bool)
        requires
            old(self).wf(),
            !old(self).chain().contains_key(rec.hash),
            old(self).chain().contains_key(rec.parent),
            rec.number == old(self).chain()[rec.parent].number + 1,
            block_data_wf(rec@),
            make_best ==> anc_or_eq(old(self).chain(), old(self).finalized, rec.parent),
        ensures
            final(self).wf(),
            final(self).chain() == old(self).chain().insert(rec.hash, rec@),
            final(self).blocks@ == old(self).blocks@.push(rec),
            final(self).finalized == old(self).finalized,
            final(self).best == (if make_best {
                rec.hash
            } else {
                old(self).best
            }),
    {
        proof {
            old(self).lemma_chain_index();
            old(self).lemma_map_wf();
        }
        let h = rec.hash;
        let ghost rv = rec@;
        let ghost old_recs = self.recs();
        let ghost old_chain = self.chain();
        self.blocks.push(rec);
        if make_best {
            self.best = h;
        }
        proof {
            assert(self.recs() =~= old_recs.push(rv));
            lemma_chain_map_of_push(old_recs, rv);
            let m2 = self.chain();
            assert(m2 == old_chain.insert(h, rv));
            // Hash freshness gives distinctness of the extended sequence.
            assert forall|i: int, j: int|
                0 <= i < j < self.recs().len() implies (#[trigger] self.recs()[i]).hash != (
            #[trigger] self.recs()[j]).hash by {
                if j < self.recs().len() - 1 {
                    assert(old_recs[i].hash != old_recs[j].hash);
                } else {
                    assert(old_chain.contains_key(old_recs[i].hash));
                }
            }
            assert forall|i: int|
                0 < i < self.recs().len() implies {
                    &&& m2.contains_key((#[trigger] self.recs()[i]).parent)
                    &&& m2[self.recs()[i].parent].number + 1 == self.recs()[i].number
                } by {
                if i < self.recs().len() - 1 {
                    assert(old_recs[i] == self.recs()[i]);
                    assert(old_chain.contains_key(old_recs[i].parent));
                    assert(old_recs[i].parent != h);
                }
            }
            assert(parents_first(self.recs())) by {
                lemma_parents_first_push(old_recs, rv);
                assert(self.recs() == old_recs.push(rv));
            }
            assert forall|i: int|
                0 <= i < self.recs().len() implies block_data_wf(#[trigger] self.recs()[i]) by {
                if i < self.recs().len() - 1 {
                    assert(old_recs[i] == self.recs()[i]);
                }
            }
            assert(self.recs()[0] == old_recs[0]);
            lemma_anc_insert_fresh(old_chain, h, rv, self.finalized, old(self).best);
            if make_best {
                lemma_anc_insert_fresh(old_chain, h, rv, self.finalized, rec.parent);
                assert(anc_or_eq(m2, self.finalized, rec.parent));
                assert(m2[h].number > 0 && m2.contains_key(m2[h].parent));
                assert(anc_or_eq(m2, self.finalized, h));
            }
        }
    }

    /// The client finalizes a descendant of the current finalized block;
    /// if the best block is not a descendant of it, the best moves there.
    pub fn finalize(&mut self, h: u64)
        requires
            old(self).wf(),
            old(self).chain().contains_key(h),
            anc_or_eq(old(self).chain(), old(self).finalized, h),
        ensures
            final(self).wf(),
            final(self).chain() == old(self).chain(),
            final(self).blocks == old(self).blocks,
            final(self).finalized == h,
            final(self).best == (if anc_or_eq(old(self).chain(), h, old(self).best) {
                old(self).best
            } else {
                h
            }),
    {
        let best_is_desc = self.is_ancestor(h, self.best);
        self.finalized = h;
        if !best_is_desc {
            self.best = h;
        }
    }
}

} // verus!
