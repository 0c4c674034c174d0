//! Mark-and-sweep garbage collection of a chunk store: the chunks reachable
//! from live roots stay, every other chunk is deleted.
use std::collections::VecDeque;
use vstd::prelude::*;
use crate::error::{ProllyError, Result};
use crate::node::definition::{Node, NodeModel, ValueModel, ValueRepr, hashes_view};
use crate::node::encoding::decode_node_spec;
use crate::store::chunk_store::hash_set;
use crate::store::mem_store::contains_hash;
use crate::store::ChunkStore;

verus! {

/// The value is stored in a chunk with hash `h`.
pub open spec fn value_refers(v: ValueModel, h: Seq<u8>) -> bool {
    match v {
        ValueModel::Inline(_) => false,
        ValueModel::Chunked(x) => x == h,
        ValueModel::ChunkedSequence { hashes, .. } => exists|j: int| 0 <= j < hashes.len() && hashes[j] == h,
    }
}

/// The node names `h`: as a child, or as a chunk of one of its values.
pub open spec fn node_refers(n: NodeModel, h: Seq<u8>) -> bool {
    match n {
        NodeModel::Leaf { entries, .. } => exists|i: int|
            0 <= i < entries.len() && value_refers(#[trigger] entries[i].value, h),
        NodeModel::Internal { children, .. } => exists|i: int|
            0 <= i < children.len() && (#[trigger] children[i]).hash == h,
    }
}

/// The chunk under `p` decodes to a node that names `h`.
pub open spec fn chunk_refers(chunks: Map<Seq<u8>, Seq<u8>>, p: Seq<u8>, h: Seq<u8>) -> bool {
    &&& chunks.contains_key(p)
    &&& decode_node_spec(chunks[p]) matches Some(n) && node_refers(n, h)
}

/// The stored chunks reachable from `roots` in at most `n` steps.
pub open spec fn reach(chunks: Map<Seq<u8>, Seq<u8>>, roots: Set<Seq<u8>>, n: nat) -> Set<Seq<u8>>
    decreases n,
{
    if n == 0 {
        roots.intersect(chunks.dom())
    } else {
        let prev = reach(chunks, roots, (n - 1) as nat);
        prev.union(
            Set::new(
                |h: Seq<u8>|
                    chunks.contains_key(h) && exists|p: Seq<u8>| prev.contains(p) && chunk_refers(chunks, p, h),
            ),
        )
    }
}

/// The stored chunks reachable from `roots`.
pub open spec fn reachable_set(chunks: Map<Seq<u8>, Seq<u8>>, roots: Set<Seq<u8>>) -> Set<Seq<u8>> {
    Set::new(|h: Seq<u8>| exists|n: nat| #[trigger] reach(chunks, roots, n).contains(h))
}

proof fn lemma_reach_step(chunks: Map<Seq<u8>, Seq<u8>>, roots: Set<Seq<u8>>, n: nat, p: Seq<u8>, h: Seq<u8>)
    requires
        reach(chunks, roots, n).contains(p),
        chunks.contains_key(h),
        chunk_refers(chunks, p, h),
    ensures
        reach(chunks, roots, n + 1).contains(h),
{
    assert(reach(chunks, roots, (n + 1) as nat) == reach(chunks, roots, n).union(
        Set::new(
            |x: Seq<u8>|
                chunks.contains_key(x) && exists|q: Seq<u8>| reach(chunks, roots, n).contains(q) && chunk_refers(
                    chunks,
                    q,
                    x,
                ),
        ),
    ));
}

/// Reachable chunks are stored.
proof fn lemma_reach_stored(chunks: Map<Seq<u8>, Seq<u8>>, roots: Set<Seq<u8>>, n: nat)
    ensures
        reach(chunks, roots, n).subset_of(chunks.dom()),
    decreases n,
{
    if n > 0 {
        lemma_reach_stored(chunks, roots, (n - 1) as nat);
    }
}

/// A set of stored chunks that holds the stored roots and is closed under
/// references holds everything reachable.
proof fn lemma_reach_within(chunks: Map<Seq<u8>, Seq<u8>>, roots: Set<Seq<u8>>, live: Set<Seq<u8>>, n: nat)
    requires
        roots.intersect(chunks.dom()).subset_of(live),
        forall|p: Seq<u8>, h: Seq<u8>|
            live.contains(p) && chunks.contains_key(h) && #[trigger] chunk_refers(chunks, p, h) ==> live.contains(h),
    ensures
        reach(chunks, roots, n).subset_of(live),
    decreases n,
{
    if n > 0 {
        lemma_reach_within(chunks, roots, live, (n - 1) as nat);
    }
}

/// Distinct hashes: as many as the set they form.
proof fn lemma_distinct_hashes_len(v: Seq<crate::common::Hash>)
    requires
        forall|i: int, j: int| 0 <= i < j < v.len() ==> (#[trigger] v[i])@ != (#[trigger] v[j])@,
    ensures
        hash_set(v).finite(),
        hash_set(v).len() == v.len(),
{
    let m = hashes_view(v);
    assert forall|k: Seq<u8>| #[trigger] hash_set(v).contains(k) == m.to_set().contains(k) by {
        if hash_set(v).contains(k) {
            let i = choose|i: int| 0 <= i < v.len() && v[i]@ == k;
            assert(m[i] == k);
        }
        if m.to_set().contains(k) {
            let i = choose|i: int| 0 <= i < m.len() && m[i] == k;
            assert(v[i]@ == k);
        }
    }
    assert(hash_set(v) =~= m.to_set());
    assert forall|i: int, j: int| 0 <= i < j < m.len() implies m[i] != m[j] by {
        assert(m[i] == v[i]@ && m[j] == v[j]@);
    }
    m.unique_seq_to_set();
}

/// Distinct hashes that all occur among other distinct hashes are no more of them.
proof fn lemma_distinct_subset_len(a: Seq<crate::common::Hash>, b: Seq<crate::common::Hash>)
    requires
        forall|i: int, j: int| 0 <= i < j < a.len() ==> (#[trigger] a[i])@ != (#[trigger] a[j])@,
        forall|i: int, j: int| 0 <= i < j < b.len() ==> (#[trigger] b[i])@ != (#[trigger] b[j])@,
        hash_set(a).subset_of(hash_set(b)),
    ensures
        a.len() <= b.len(),
{
    lemma_distinct_hashes_len(a);
    lemma_distinct_hashes_len(b);
    vstd::set_lib::lemma_len_subset(hash_set(a), hash_set(b));
}

/// Appends `h` to the queue when it is stored and not yet marked.
fn enqueue_if_unmarked(
    h: &crate::common::Hash,
    all: &Vec<crate::common::Hash>,
    live: &Vec<crate::common::Hash>,
    queue: &mut VecDeque<crate::common::Hash>,
)
    ensures
        hash_set(all@).contains(h@) && !hash_set(live@).contains(h@) ==> final(queue)@ == old(queue)@.push(*h),
        !(hash_set(all@).contains(h@) && !hash_set(live@).contains(h@)) ==> final(queue)@ == old(queue)@,
{
    if contains_hash(all.as_slice(), h) && !contains_hash(live.as_slice(), h) {
        queue.push_back(*h);
    }
}

/// `q1` is `q0` followed by stored hashes that satisfy `named`, and holds
/// every stored, unmarked hash that satisfies `named`.
pub open spec fn enqueued(
    named: spec_fn(Seq<u8>) -> bool,
    all: Set<Seq<u8>>,
    live: Set<Seq<u8>>,
    q0: Seq<crate::common::Hash>,
    q1: Seq<crate::common::Hash>,
) -> bool {
    &&& q1.len() >= q0.len()
    &&& q1.take(q0.len() as int) == q0
    &&& forall|i: int| q0.len() <= i < q1.len() ==> named((#[trigger] q1[i])@) && all.contains(q1[i]@)
    &&& forall|h: Seq<u8>| named(h) && all.contains(h) && !live.contains(h) ==> #[trigger] hash_set(q1).contains(h)
}

proof fn lemma_enqueued_trans(
    p1: spec_fn(Seq<u8>) -> bool,
    p2: spec_fn(Seq<u8>) -> bool,
    p: spec_fn(Seq<u8>) -> bool,
    all: Set<Seq<u8>>,
    live: Set<Seq<u8>>,
    q0: Seq<crate::common::Hash>,
    q1: Seq<crate::common::Hash>,
    q2: Seq<crate::common::Hash>,
)
    requires
        enqueued(p1, all, live, q0, q1),
        enqueued(p2, all, live, q1, q2),
        forall|h: Seq<u8>| #[trigger] p(h) == (p1(h) || p2(h)),
    ensures
        enqueued(p, all, live, q0, q2),
{
    assert(q2.take(q0.len() as int) =~= q0) by {
        assert forall|i: int| 0 <= i < q0.len() implies q2[i] == q0[i] by {
            assert(q2.take(q1.len() as int)[i] == q1[i]);
            assert(q1.take(q0.len() as int)[i] == q0[i]);
        }
    }
    assert forall|i: int| q0.len() <= i < q2.len() implies p((#[trigger] q2[i])@) && all.contains(q2[i]@) by {
        if i < q1.len() {
            assert(q2.take(q1.len() as int)[i] == q1[i]);
            assert(p1(q1[i]@));
        } else {
            assert(p2(q2[i]@));
        }
    }
    assert forall|h: Seq<u8>| p(h) && all.contains(h) && !live.contains(h) implies #[trigger] hash_set(q2).contains(h) by {
        if p1(h) {
            assert(hash_set(q1).contains(h));
            let w = choose|w: int| 0 <= w < q1.len() && q1[w]@ == h;
            assert(q2.take(q1.len() as int)[w] == q1[w]);
            assert(q2[w]@ == h);
        } else {
            assert(p2(h));
        }
    }
}

/// Appends to the queue the stored, unmarked chunks a value is stored in.
fn enqueue_value_refs(
    v: &ValueRepr,
    all: &Vec<crate::common::Hash>,
    live: &Vec<crate::common::Hash>,
    queue: &mut VecDeque<crate::common::Hash>,
)
    ensures
        enqueued(|h: Seq<u8>| value_refers(v@, h), hash_set(all@), hash_set(live@), old(queue)@, final(queue)@),
{
    let ghost q0 = queue@;
    match v {
        ValueRepr::Chunked(data_hash) => {
            enqueue_if_unmarked(data_hash, all, live, queue);
            proof {
                assert(queue@.take(q0.len() as int) =~= q0);
                assert forall|h: Seq<u8>| value_refers(v@, h) && hash_set(all@).contains(h) && !hash_set(live@).contains(h)
                    implies #[trigger] hash_set(queue@).contains(h) by {
                    let last = queue@.len() - 1;
                    assert(queue@[last]@ == h);
                }
            }
        },
        ValueRepr::ChunkedSequence { chunk_hashes, .. } => {
            let ghost hv = hashes_view(chunk_hashes@);
            let mut j: usize = 0;
            assert(queue@.take(q0.len() as int) =~= q0);
            while j < chunk_hashes.len()
                invariant
                    v@ matches ValueModel::ChunkedSequence { hashes, .. } && hashes == hv,
                    hv == hashes_view(chunk_hashes@),
                    j <= chunk_hashes@.len(),
                    enqueued(
                        |h: Seq<u8>| exists|m: int| 0 <= m < j && hv[m] == h,
                        hash_set(all@),
                        hash_set(live@),
                        q0,
                        queue@,
                    ),
                decreases chunk_hashes@.len() - j,
            {
                let ghost qj = queue@;
                enqueue_if_unmarked(&chunk_hashes[j], all, live, queue);
                proof {
                    assert(hv[j as int] == chunk_hashes@[j as int]@);
                    let one = |h: Seq<u8>| h == hv[j as int];
                    assert(queue@.take(qj.len() as int) =~= qj);
                    assert forall|h: Seq<u8>| one(h) && hash_set(all@).contains(h) && !hash_set(live@).contains(h)
                        implies #[trigger] hash_set(queue@).contains(h) by {
                        let last = queue@.len() - 1;
                        assert(queue@[last]@ == h);
                    }
                    assert(enqueued(one, hash_set(all@), hash_set(live@), qj, queue@));
                    let before = |h: Seq<u8>| exists|m: int| 0 <= m < j && hv[m] == h;
                    let after = |h: Seq<u8>| exists|m: int| 0 <= m < j + 1 && hv[m] == h;
                    assert forall|h: Seq<u8>| #[trigger] after(h) == (before(h) || one(h)) by {
                        if after(h) {
                            let m = choose|m: int| 0 <= m < j + 1 && hv[m] == h;
                            if m < j {
                                assert(before(h));
                            }
                        }
                        if before(h) {
                            let m = choose|m: int| 0 <= m < j && hv[m] == h;
                            assert(0 <= m < j + 1 && hv[m] == h);
                        }
                    }
                    lemma_enqueued_trans(before, one, after, hash_set(all@), hash_set(live@), q0, qj, queue@);
                }
                j = j + 1;
            }
            proof {
                let done = |h: Seq<u8>| exists|m: int| 0 <= m < j && hv[m] == h;
                assert forall|h: Seq<u8>| #[trigger] value_refers(v@, h) == done(h) by {}
                assert(enqueued(|h: Seq<u8>| value_refers(v@, h), hash_set(all@), hash_set(live@), q0, queue@)) by {
                    assert forall|i: int| q0.len() <= i < queue@.len() implies value_refers(v@, (#[trigger] queue@[i])@)
                        && hash_set(all@).contains(queue@[i]@) by {
                        assert(done(queue@[i]@));
                    }
                    assert forall|h: Seq<u8>| value_refers(v@, h) && hash_set(all@).contains(h) && !hash_set(live@).contains(h)
                        implies #[trigger] hash_set(queue@).contains(h) by {
                        assert(done(h));
                    }
                }
            }
        },
        ValueRepr::Inline(_) => {
            assert(queue@.take(q0.len() as int) =~= q0);
        },
    }
}

/// Appends to the queue the stored, unmarked hashes that `node` names.
fn enqueue_refs(
    node: &Node,
    all: &Vec<crate::common::Hash>,
    live: &Vec<crate::common::Hash>,
    queue: &mut VecDeque<crate::common::Hash>,
)
    ensures
        enqueued(|h: Seq<u8>| node_refers(node@, h), hash_set(all@), hash_set(live@), old(queue)@, final(queue)@),
{
    let ghost q0 = queue@;
    let ghost n = node@;
    match node {
        Node::Leaf { entries, .. } => {
            let ghost ev = crate::node::definition::entries_view(entries@);
            let mut i: usize = 0;
            assert(queue@.take(q0.len() as int) =~= q0);
            while i < entries.len()
                invariant
                    n == node@,
                    n matches NodeModel::Leaf { entries: es, .. } && es == ev,
                    ev == crate::node::definition::entries_view(entries@),
                    i <= entries@.len(),
                    enqueued(
                        |h: Seq<u8>| exists|e: int| 0 <= e < i && value_refers(ev[e].value, h),
                        hash_set(all@),
                        hash_set(live@),
                        q0,
                        queue@,
                    ),
                decreases entries@.len() - i,
            {
                let ghost qb = queue@;
                enqueue_value_refs(&entries[i].value, all, live, queue);
                proof {
                    assert(ev[i as int].value == entries@[i as int].value@);
                    let one = |h: Seq<u8>| value_refers(ev[i as int].value, h);
                    let before = |h: Seq<u8>| exists|e: int| 0 <= e < i && value_refers(ev[e].value, h);
                    let after = |h: Seq<u8>| exists|e: int| 0 <= e < i + 1 && value_refers(ev[e].value, h);
                    assert forall|h: Seq<u8>| #[trigger] after(h) == (before(h) || one(h)) by {
                        if after(h) {
                            let e = choose|e: int| 0 <= e < i + 1 && value_refers(ev[e].value, h);
                            if e < i {
                                assert(before(h));
                            }
                        }
                        if before(h) {
                            let e = choose|e: int| 0 <= e < i && value_refers(ev[e].value, h);
                            assert(0 <= e < i + 1 && value_refers(ev[e].value, h));
                        }
                    }
                    assert(enqueued(one, hash_set(all@), hash_set(live@), qb, queue@));
                    lemma_enqueued_trans(before, one, after, hash_set(all@), hash_set(live@), q0, qb, queue@);
                }
                i = i + 1;
            }
            proof {
                let done = |h: Seq<u8>| exists|e: int| 0 <= e < i && value_refers(ev[e].value, h);
                assert forall|h: Seq<u8>| #[trigger] node_refers(n, h) == done(h) by {}
                assert forall|k: int| q0.len() <= k < queue@.len() implies node_refers(node@, (#[trigger] queue@[k])@)
                    && hash_set(all@).contains(queue@[k]@) by {
                    assert(done(queue@[k]@));
                }
                assert forall|h: Seq<u8>| node_refers(node@, h) && hash_set(all@).contains(h) && !hash_set(live@).contains(h)
                    implies #[trigger] hash_set(queue@).contains(h) by {
                    assert(done(h));
                }
            }
        },
        Node::Internal { children, .. } => {
            let ghost cv = crate::node::definition::children_view(children@);
            let mut i: usize = 0;
            assert(queue@.take(q0.len() as int) =~= q0);
            while i < children.len()
                invariant
                    n == node@,
                    n matches NodeModel::Internal { children: cs, .. } && cs == cv,
                    cv == crate::node::definition::children_view(children@),
                    i <= children@.len(),
                    enqueued(
                        |h: Seq<u8>| exists|c: int| 0 <= c < i && cv[c].hash == h,
                        hash_set(all@),
                        hash_set(live@),
                        q0,
                        queue@,
                    ),
                decreases children@.len() - i,
            {
                let ghost qb = queue@;
                enqueue_if_unmarked(&children[i].child_hash, all, live, queue);
                proof {
                    assert(cv[i as int].hash == children@[i as int].child_hash@);
                    let one = |h: Seq<u8>| h == cv[i as int].hash;
                    assert(queue@.take(qb.len() as int) =~= qb);
                    assert forall|h: Seq<u8>| one(h) && hash_set(all@).contains(h) && !hash_set(live@).contains(h)
                        implies #[trigger] hash_set(queue@).contains(h) by {
                        let last = queue@.len() - 1;
                        assert(queue@[last]@ == h);
                    }
                    assert(enqueued(one, hash_set(all@), hash_set(live@), qb, queue@));
                    let before = |h: Seq<u8>| exists|c: int| 0 <= c < i && cv[c].hash == h;
                    let after = |h: Seq<u8>| exists|c: int| 0 <= c < i + 1 && cv[c].hash == h;
                    assert forall|h: Seq<u8>| #[trigger] after(h) == (before(h) || one(h)) by {
                        if after(h) {
                            let c = choose|c: int| 0 <= c < i + 1 && cv[c].hash == h;
                            if c < i {
                                assert(before(h));
                            }
                        }
                        if before(h) {
                            let c = choose|c: int| 0 <= c < i && cv[c].hash == h;
                            assert(0 <= c < i + 1 && cv[c].hash == h);
                        }
                    }
                    lemma_enqueued_trans(before, one, after, hash_set(all@), hash_set(live@), q0, qb, queue@);
                }
                i = i + 1;
            }
            proof {
                let done = |h: Seq<u8>| exists|c: int| 0 <= c < i && cv[c].hash == h;
                assert forall|h: Seq<u8>| #[trigger] node_refers(n, h) == done(h) by {}
                assert forall|k: int| q0.len() <= k < queue@.len() implies node_refers(node@, (#[trigger] queue@[k])@)
                    && hash_set(all@).contains(queue@[k]@) by {
                    assert(done(queue@[k]@));
                }
                assert forall|h: Seq<u8>| node_refers(node@, h) && hash_set(all@).contains(h) && !hash_set(live@).contains(h)
                    implies #[trigger] hash_set(queue@).contains(h) by {
                    assert(done(h));
                }
            }
        },
    }
}

/// Distinct hashes, compared as bytes.
pub open spec fn distinct_hashes(v: Seq<crate::common::Hash>) -> bool {
    forall|i: int, j: int| 0 <= i < j < v.len() ==> (#[trigger] v[i])@ != (#[trigger] v[j])@
}

/// What the mark phase keeps true: the marked chunks are distinct, stored
/// and reachable; the queued ones stored and reachable; every stored root,
/// and every stored chunk a marked chunk names, is marked or queued.
pub open spec fn mark_inv(
    chunks: Map<Seq<u8>, Seq<u8>>,
    roots: Set<Seq<u8>>,
    live: Seq<crate::common::Hash>,
    queue: Seq<crate::common::Hash>,
) -> bool {
    &&& distinct_hashes(live)
    &&& forall|i: int| 0 <= i < live.len() ==> chunks.contains_key((#[trigger] live[i])@)
        && reachable_set(chunks, roots).contains(live[i]@)
    &&& forall|i: int| 0 <= i < queue.len() ==> chunks.contains_key((#[trigger] queue[i])@)
        && reachable_set(chunks, roots).contains(queue[i]@)
    &&& forall|r: Seq<u8>| roots.contains(r) && chunks.contains_key(r) ==> #[trigger] hash_set(live).contains(r)
        || hash_set(queue).contains(r)
    &&& forall|p: Seq<u8>, h: Seq<u8>|
        hash_set(live).contains(p) && chunks.contains_key(h) && #[trigger] chunk_refers(chunks, p, h) ==> hash_set(
            live,
        ).contains(h) || hash_set(queue).contains(h)
}

/// The queue after popping its front `h`: what was marked or queued is
/// still, once `h` is marked.
proof fn lemma_pop_keeps(q: Seq<crate::common::Hash>, x: Seq<u8>)
    requires
        q.len() > 0,
        hash_set(q).contains(x),
    ensures
        x == q[0]@ || hash_set(q.subrange(1, q.len() as int)).contains(x),
{
    let i = choose|i: int| 0 <= i < q.len() && q[i]@ == x;
    if i > 0 {
        assert(q.subrange(1, q.len() as int)[i - 1] == q[i]);
    }
}

/// Dropping the queue's front keeps the mark invariant when the front is
/// already marked or not stored.
proof fn lemma_skip_front(
    chunks: Map<Seq<u8>, Seq<u8>>,
    roots: Set<Seq<u8>>,
    live: Seq<crate::common::Hash>,
    q: Seq<crate::common::Hash>,
)
    requires
        mark_inv(chunks, roots, live, q),
        q.len() > 0,
        hash_set(live).contains(q[0]@) || !chunks.contains_key(q[0]@),
    ensures
        mark_inv(chunks, roots, live, q.subrange(1, q.len() as int)),
{
    let q1 = q.subrange(1, q.len() as int);
    assert forall|i: int| 0 <= i < q1.len() implies chunks.contains_key((#[trigger] q1[i])@)
        && reachable_set(chunks, roots).contains(q1[i]@) by {
        assert(q1[i] == q[i + 1]);
    }
    assert forall|r: Seq<u8>| roots.contains(r) && chunks.contains_key(r) implies #[trigger] hash_set(live).contains(r)
        || hash_set(q1).contains(r) by {
        if !hash_set(live).contains(r) {
            lemma_pop_keeps(q, r);
        }
    }
    assert forall|p: Seq<u8>, h: Seq<u8>|
        hash_set(live).contains(p) && chunks.contains_key(h) && #[trigger] chunk_refers(chunks, p, h) implies hash_set(
            live,
        ).contains(h) || hash_set(q1).contains(h) by {
        if !hash_set(live).contains(h) {
            lemma_pop_keeps(q, h);
        }
    }
}

/// Marking the queue's front and queueing what it names keeps the mark invariant.
proof fn lemma_mark_front(
    chunks: Map<Seq<u8>, Seq<u8>>,
    roots: Set<Seq<u8>>,
    l0: Seq<crate::common::Hash>,
    q: Seq<crate::common::Hash>,
    q2: Seq<crate::common::Hash>,
)
    requires
        mark_inv(chunks, roots, l0, q),
        q.len() > 0,
        !hash_set(l0).contains(q[0]@),
        chunks.contains_key(q[0]@),
        enqueued(
            |x: Seq<u8>| chunk_refers(chunks, q[0]@, x),
            chunks.dom(),
            hash_set(l0.push(q[0])),
            q.subrange(1, q.len() as int),
            q2,
        ),
    ensures
        mark_inv(chunks, roots, l0.push(q[0]), q2),
{
    let h = q[0]@;
    let live = l0.push(q[0]);
    let q1 = q.subrange(1, q.len() as int);
    assert forall|x: Seq<u8>| hash_set(l0).contains(x) implies #[trigger] hash_set(live).contains(x) by {
        let i = choose|i: int| 0 <= i < l0.len() && l0[i]@ == x;
        assert(live[i] == l0[i]);
    }
    assert(live[live.len() - 1]@ == h);
    assert(hash_set(live).contains(h));
    assert forall|x: Seq<u8>| hash_set(q1).contains(x) implies #[trigger] hash_set(q2).contains(x) by {
        let i = choose|i: int| 0 <= i < q1.len() && q1[i]@ == x;
        assert(q2.take(q1.len() as int)[i] == q1[i]);
        assert(q2[i]@ == x);
    }
    assert(reachable_set(chunks, roots).contains(h)) by {
        assert(q[0] == q[0]);
    }
    let n = choose|n: nat| #[trigger] reach(chunks, roots, n).contains(h);
    assert forall|i: int| 0 <= i < live.len() implies chunks.contains_key((#[trigger] live[i])@)
        && reachable_set(chunks, roots).contains(live[i]@) by {
        if i < l0.len() {
            assert(live[i] == l0[i]);
        }
    }
    assert forall|i: int, j: int| 0 <= i < j < live.len() implies (#[trigger] live[i])@ != (#[trigger] live[j])@ by {
        if j == live.len() - 1 {
            assert(live[i] == l0[i]);
        } else {
            assert(live[i] == l0[i] && live[j] == l0[j]);
        }
    }
    assert forall|i: int| 0 <= i < q2.len() implies chunks.contains_key((#[trigger] q2[i])@)
        && reachable_set(chunks, roots).contains(q2[i]@) by {
        if i < q1.len() {
            assert(q2.take(q1.len() as int)[i] == q1[i]);
            assert(q1[i] == q[i + 1]);
        } else {
            assert(chunk_refers(chunks, h, q2[i]@));
            lemma_reach_step(chunks, roots, n, h, q2[i]@);
        }
    }
    assert forall|r: Seq<u8>| roots.contains(r) && chunks.contains_key(r) implies #[trigger] hash_set(live).contains(r)
        || hash_set(q2).contains(r) by {
        if !hash_set(l0).contains(r) {
            lemma_pop_keeps(q, r);
        }
    }
    assert forall|p: Seq<u8>, x: Seq<u8>|
        hash_set(live).contains(p) && chunks.contains_key(x) && #[trigger] chunk_refers(chunks, p, x) implies hash_set(
            live,
        ).contains(x) || hash_set(q2).contains(x) by {
        if p == h {
            if !hash_set(live).contains(x) {
                assert(hash_set(q2).contains(x));
            }
        } else {
            let i = choose|i: int| 0 <= i < live.len() && live[i]@ == p;
            assert(i < l0.len());
            assert(live[i] == l0[i]);
            assert(hash_set(l0).contains(p));
            if !hash_set(l0).contains(x) {
                lemma_pop_keeps(q, x);
            }
        }
    }
}

/// Marks every chunk reachable from the queued hashes.
#[verifier::spinoff_prover]
fn mark_live<S: ChunkStore>(
    store: &S,
    all: &Vec<crate::common::Hash>,
    live: &mut Vec<crate::common::Hash>,
    queue: &mut VecDeque<crate::common::Hash>,
    Ghost(roots): Ghost<Set<Seq<u8>>>,
) -> (r: Result<()>)
    requires
        store.inv(),
        hash_set(all@) == store.chunks().dom(),
        distinct_hashes(all@),
        old(live)@.len() <= all@.len(),
        mark_inv(store.chunks(), roots, old(live)@, old(queue)@),
    ensures
        r is Ok ==> mark_inv(store.chunks(), roots, final(live)@, Seq::empty()),
        store.reliable() ==> r is Ok,
{
    let ghost c0 = store.chunks();
    while queue.len() > 0
        invariant
            store.inv(),
            c0 == store.chunks(),
            hash_set(all@) == c0.dom(),
            distinct_hashes(all@),
            live@.len() <= all@.len(),
            mark_inv(c0, roots, live@, queue@),
        decreases all@.len() - live@.len(), queue@.len(),
    {
        let ghost q = queue@;
        let hash_to_process = queue.pop_front().unwrap();
        let ghost h = hash_to_process@;
        if contains_hash(live.as_slice(), &hash_to_process) {
            proof {
                lemma_skip_front(c0, roots, live@, q);
            }
            continue;
        }
        if !contains_hash(all.as_slice(), &hash_to_process) {
            proof {
                lemma_skip_front(c0, roots, live@, q);
            }
            continue;
        }
        let ghost l0 = live@;
        live.push(hash_to_process);
        proof {
            assert(live@ == l0.push(q[0]));
            assert forall|x: Seq<u8>| #[trigger] hash_set(live@).contains(x) implies hash_set(all@).contains(x) by {
                let i = choose|i: int| 0 <= i < live@.len() && live@[i]@ == x;
                if i < l0.len() {
                    assert(live@[i] == l0[i]);
                }
            }
            assert forall|i: int, j: int| 0 <= i < j < live@.len() implies (#[trigger] live@[i])@ != (#[trigger] live@[j])@ by {
                if j == live@.len() - 1 {
                    assert(live@[i] == l0[i]);
                    assert(hash_set(l0).contains(live@[i]@));
                } else {
                    assert(live@[i] == l0[i] && live@[j] == l0[j]);
                }
            }
            lemma_distinct_subset_len(live@, all@);
        }
        let ghost q1 = queue@;
        match store.get(&hash_to_process) {
            Ok(Some(bytes)) => {
                match Node::decode(bytes.as_slice()) {
                    Ok(node) => {
                        enqueue_refs(&node, all, live, queue);
                        proof {
                            assert forall|x: Seq<u8>| #[trigger] chunk_refers(c0, h, x) == node_refers(node@, x) by {}
                            assert(enqueued(|x: Seq<u8>| chunk_refers(c0, h, x), c0.dom(), hash_set(live@), q1, queue@)) by {
                                assert forall|i: int| q1.len() <= i < queue@.len() implies chunk_refers(c0, h, (#[trigger] queue@[i])@)
                                    && c0.dom().contains(queue@[i]@) by {
                                    assert(node_refers(node@, queue@[i]@));
                                }
                                assert forall|x: Seq<u8>| chunk_refers(c0, h, x) && c0.dom().contains(x) && !hash_set(live@).contains(x)
                                    implies #[trigger] hash_set(queue@).contains(x) by {
                                    assert(node_refers(node@, x));
                                }
                            }
                            lemma_mark_front(c0, roots, l0, q, queue@);
                        }
                    },
                    Err(_) => {
                        proof {
                            assert(queue@.take(q1.len() as int) =~= q1);
                            assert forall|x: Seq<u8>| !#[trigger] chunk_refers(c0, h, x) by {}
                            lemma_mark_front(c0, roots, l0, q, queue@);
                        }
                    },
                }
            },
            Ok(None) => {
                return Err(
                    ProllyError::InternalError(
                        "GC: Chunk was expected in store but not found during get.".to_string(),
                    ),
                );
            },
            Err(_) => {
                return Err(ProllyError::StorageError("GC: Error getting chunk from store".to_string()));
            },
        }
    }
    assert(queue@ =~= Seq::<crate::common::Hash>::empty());
    Ok(())
}

/// Mark-and-sweep over `store`: keeps the chunks reachable from
/// `live_root_hashes` (through child hashes and value chunks of the chunks
/// that decode as nodes) and deletes every other chunk. Returns how many
/// chunks were deleted.
pub fn collect_garbage<S: ChunkStore>(store: &mut S, live_root_hashes: &[crate::common::Hash]) -> (r: Result<usize>)
    requires
        old(store).inv(),
    ensures
        final(store).inv(),
        r matches Ok(count) ==> {
            let live = reachable_set(old(store).chunks(), hash_set(live_root_hashes@));
            &&& final(store).chunks() == old(store).chunks().restrict(live)
            &&& count == old(store).chunks().dom().difference(live).len()
        },
        old(store).reliable() ==> r is Ok,
        final(store).reliable() == old(store).reliable(),
{
    let ghost c0 = store.chunks();
    let ghost roots = hash_set(live_root_hashes@);
    let all_store_hashes = match store.all_hashes() {
        Ok(v) => v,
        Err(e) => return Err(e),
    };
    proof {
        lemma_distinct_hashes_len(all_store_hashes@);
    }
    if all_store_hashes.len() == 0 {
        proof {
            assert(c0.dom() =~= Set::<Seq<u8>>::empty());
            assert forall|x: Seq<u8>| !#[trigger] reachable_set(c0, roots).contains(x) by {
                if reachable_set(c0, roots).contains(x) {
                    let n = choose|n: nat| #[trigger] reach(c0, roots, n).contains(x);
                    lemma_reach_stored(c0, roots, n);
                }
            }
            assert(c0.restrict(reachable_set(c0, roots)) =~= c0);
            assert(c0.dom().difference(reachable_set(c0, roots)) =~= Set::<Seq<u8>>::empty());
        }
        return Ok(0);
    }
    let mut live_chunks: Vec<crate::common::Hash> = Vec::new();
    let mut queue: VecDeque<crate::common::Hash> = VecDeque::new();
    let mut i: usize = 0;
    while i < live_root_hashes.len()
        invariant
            c0 == store.chunks(),
            roots == hash_set(live_root_hashes@),
            hash_set(all_store_hashes@) == c0.dom(),
            live_chunks@ == Seq::<crate::common::Hash>::empty(),
            i <= live_root_hashes@.len(),
            forall|k: int| 0 <= k < queue@.len() ==> c0.contains_key((#[trigger] queue@[k])@)
                && reach(c0, roots, 0).contains(queue@[k]@),
            forall|j: int| 0 <= j < i && c0.contains_key(live_root_hashes@[j]@) ==> #[trigger] hash_set(queue@).contains(
                live_root_hashes@[j]@,
            ),
        decreases live_root_hashes@.len() - i,
    {
        let ghost q0 = queue@;
        if contains_hash(all_store_hashes.as_slice(), &live_root_hashes[i]) {
            queue.push_back(live_root_hashes[i]);
        }
        proof {
            assert(roots.contains(live_root_hashes@[i as int]@));
            assert forall|k: int| 0 <= k < queue@.len() implies c0.contains_key((#[trigger] queue@[k])@)
                && reach(c0, roots, 0).contains(queue@[k]@) by {
                if k < q0.len() {
                    assert(queue@[k] == q0[k]);
                }
            }
            assert forall|j: int| 0 <= j < i + 1 && c0.contains_key(live_root_hashes@[j]@) implies #[trigger] hash_set(
                queue@,
            ).contains(live_root_hashes@[j]@) by {
                if j < i {
                    assert(hash_set(q0).contains(live_root_hashes@[j]@));
                    let w = choose|w: int| 0 <= w < q0.len() && q0[w]@ == live_root_hashes@[j]@;
                    assert(queue@[w] == q0[w]);
                } else {
                    let last = queue@.len() - 1;
                    assert(queue@[last] == live_root_hashes@[j]);
                }
            }
        }
        i = i + 1;
    }
    proof {
        assert forall|k: int| 0 <= k < queue@.len() implies reachable_set(c0, roots).contains(#[trigger] queue@[k]@) by {
            assert(reach(c0, roots, 0).contains(queue@[k]@));
        }
        assert forall|r: Seq<u8>| roots.contains(r) && c0.contains_key(r) implies #[trigger] hash_set(live_chunks@).contains(r)
            || hash_set(queue@).contains(r) by {
            let j = choose|j: int| 0 <= j < live_root_hashes@.len() && live_root_hashes@[j]@ == r;
        }
    }
    match mark_live(&*store, &all_store_hashes, &mut live_chunks, &mut queue, Ghost(roots)) {
        Ok(()) => {},
        Err(e) => return Err(e),
    }
    let ghost live = hash_set(live_chunks@);
    proof {
        assert forall|x: Seq<u8>| #[trigger] live.contains(x) == reachable_set(c0, roots).contains(x) by {
            if reachable_set(c0, roots).contains(x) {
                let n = choose|n: nat| #[trigger] reach(c0, roots, n).contains(x);
                lemma_reach_within(c0, roots, live, n);
            }
            if live.contains(x) {
                let k = choose|k: int| 0 <= k < live_chunks@.len() && live_chunks@[k]@ == x;
                assert(reachable_set(c0, roots).contains(live_chunks@[k]@));
            }
        }
        assert(live =~= reachable_set(c0, roots));
    }
    let mut dead_chunks_vec: Vec<crate::common::Hash> = Vec::new();
    let mut j: usize = 0;
    while j < all_store_hashes.len()
        invariant
            j <= all_store_hashes@.len(),
            distinct_hashes(all_store_hashes@),
            distinct_hashes(dead_chunks_vec@),
            forall|x: Seq<u8>| #[trigger] hash_set(dead_chunks_vec@).contains(x) == (hash_set(all_store_hashes@.take(j as int)).contains(x)
                && !live.contains(x)),
            live == hash_set(live_chunks@),
        decreases all_store_hashes@.len() - j,
    {
        let ghost d0 = dead_chunks_vec@;
        let h = all_store_hashes[j];
        if !contains_hash(live_chunks.as_slice(), &h) {
            dead_chunks_vec.push(h);
        }
        proof {
            let t0 = all_store_hashes@.take(j as int);
            let t1 = all_store_hashes@.take(j + 1);
            assert forall|x: Seq<u8>| #[trigger] hash_set(t1).contains(x) == (hash_set(t0).contains(x) || x == h@) by {
                if hash_set(t1).contains(x) {
                    let k = choose|k: int| 0 <= k < t1.len() && t1[k]@ == x;
                    if k < j {
                        assert(t0[k] == t1[k]);
                    }
                }
                if hash_set(t0).contains(x) {
                    let k = choose|k: int| 0 <= k < t0.len() && t0[k]@ == x;
                    assert(t1[k] == t0[k]);
                }
                if x == h@ {
                    assert(t1[j as int] == h);
                }
            }
            assert(!hash_set(t0).contains(h@)) by {
                if hash_set(t0).contains(h@) {
                    let k = choose|k: int| 0 <= k < t0.len() && t0[k]@ == h@;
                    assert(all_store_hashes@[k] == t0[k]);
                }
            }
            assert forall|x: Seq<u8>| #[trigger] hash_set(dead_chunks_vec@).contains(x) == (hash_set(t1).contains(x)
                && !live.contains(x)) by {
                if hash_set(dead_chunks_vec@).contains(x) {
                    let k = choose|k: int| 0 <= k < dead_chunks_vec@.len() && dead_chunks_vec@[k]@ == x;
                    if k < d0.len() {
                        assert(dead_chunks_vec@[k] == d0[k]);
                    }
                }
                if hash_set(d0).contains(x) {
                    let k = choose|k: int| 0 <= k < d0.len() && d0[k]@ == x;
                    assert(dead_chunks_vec@[k] == d0[k]);
                }
                if x == h@ && !live.contains(x) {
                    let last = dead_chunks_vec@.len() - 1;
                    assert(dead_chunks_vec@[last] == h);
                }
            }
            assert forall|a: int, b: int| 0 <= a < b < dead_chunks_vec@.len() implies (#[trigger] dead_chunks_vec@[a])@
                != (#[trigger] dead_chunks_vec@[b])@ by {
                if b == d0.len() {
                    assert(dead_chunks_vec@[a] == d0[a]);
                    assert(hash_set(d0).contains(d0[a]@));
                } else {
                    assert(dead_chunks_vec@[a] == d0[a] && dead_chunks_vec@[b] == d0[b]);
                }
            }
        }
        j = j + 1;
    }
    let ghost dead = hash_set(dead_chunks_vec@);
    proof {
        assert(all_store_hashes@.take(j as int) =~= all_store_hashes@);
        assert(dead =~= c0.dom().difference(live));
        lemma_distinct_hashes_len(dead_chunks_vec@);
        assert(c0.remove_keys(dead) =~= c0.restrict(live));
    }
    let collected_count = dead_chunks_vec.len();
    if dead_chunks_vec.len() > 0 {
        match store.delete_batch(dead_chunks_vec.as_slice()) {
            Ok(()) => {},
            Err(e) => return Err(e),
        }
    } else {
        proof {
            assert(c0.restrict(live) =~= c0) by {
                assert forall|x: Seq<u8>| c0.contains_key(x) implies live.contains(x) by {
                    if !live.contains(x) {
                        assert(dead.contains(x));
                    }
                }
            }
        }
    }
    Ok(collected_count)
}

/// Collects the garbage of a chunk store.
pub struct GarbageCollector<S: ChunkStore> {
    pub store: S,
}

impl<S: ChunkStore> GarbageCollector<S> {
    pub fn new(store: S) -> (r: Self)
        ensures
            r.store == store,
    {
        GarbageCollector { store }
    }

    /// Deletes every chunk of the store not reachable from the live roots;
    /// returns how many were deleted.
    pub fn collect(&mut self, live_root_hashes: &[crate::common::Hash]) -> (r: Result<usize>)
        requires
            old(self).store.inv(),
        ensures
            final(self).store.inv(),
            r matches Ok(count) ==> {
                let live = reachable_set(old(self).store.chunks(), hash_set(live_root_hashes@));
                &&& final(self).store.chunks() == old(self).store.chunks().restrict(live)
                &&& count == old(self).store.chunks().dom().difference(live).len()
            },
            old(self).store.reliable() ==> r is Ok,
    {
        collect_garbage(&mut self.store, live_root_hashes)
    }
}

// ---------------- what collection keeps ----------------

/// A set of chunks that holds whatever its stored chunks name.
pub open spec fn closed_under_refs(chunks: Map<Seq<u8>, Seq<u8>>, live: Set<Seq<u8>>) -> bool {
    forall|p: Seq<u8>, x: Seq<u8>|
        live.contains(p) && chunks.contains_key(x) && #[trigger] chunk_refers(chunks, p, x) ==> live.contains(x)
}

proof fn lemma_reachable_closed(chunks: Map<Seq<u8>, Seq<u8>>, roots: Set<Seq<u8>>)
    ensures
        closed_under_refs(chunks, reachable_set(chunks, roots)),
{
    assert forall|p: Seq<u8>, x: Seq<u8>|
        reachable_set(chunks, roots).contains(p) && chunks.contains_key(x) && #[trigger] chunk_refers(chunks, p, x) implies reachable_set(
        chunks,
        roots,
    ).contains(x) by {
        let n = choose|n: nat| #[trigger] reach(chunks, roots, n).contains(p);
        lemma_reach_step(chunks, roots, n, p, x);
    }
}

/// Every chunk an entry's value is stored in, if stored, is kept.
pub open spec fn values_kept(chunks: Map<Seq<u8>, Seq<u8>>, live: Set<Seq<u8>>, es: Seq<crate::node::definition::EntryModel>) -> bool {
    forall|i: int, x: Seq<u8>|
        0 <= i < es.len() && chunks.contains_key(x) && #[trigger] value_refers(es[i].value, x) ==> live.contains(x)
}

proof fn lemma_values_kept_concat(
    chunks: Map<Seq<u8>, Seq<u8>>,
    live: Set<Seq<u8>>,
    a: Seq<crate::node::definition::EntryModel>,
    b: Seq<crate::node::definition::EntryModel>,
)
    requires
        values_kept(chunks, live, a),
        values_kept(chunks, live, b),
    ensures
        values_kept(chunks, live, a + b),
{
    assert forall|i: int, x: Seq<u8>|
        0 <= i < (a + b).len() && chunks.contains_key(x) && #[trigger] value_refers((a + b)[i].value, x) implies live.contains(x) by {
        if i < a.len() {
            assert((a + b)[i] == a[i]);
        } else {
            assert((a + b)[i] == b[i - a.len()]);
        }
    }
}

/// A well-formed subtree whose root is kept, under a closed set of kept
/// chunks, reads the same from the kept chunks alone, values included.
proof fn lemma_subtree_restrict(chunks: Map<Seq<u8>, Seq<u8>>, live: Set<Seq<u8>>, h: Seq<u8>, level: nat)
    requires
        closed_under_refs(chunks, live),
        live.contains(h),
        crate::tree::model::subtree(chunks, h, level) is Some,
    ensures
        crate::tree::model::subtree(chunks.restrict(live), h, level) == crate::tree::model::subtree(chunks, h, level),
        values_kept(chunks, live, crate::tree::model::subtree(chunks, h, level).unwrap()),
    decreases level, 0nat, 0nat,
{
    let c1 = chunks.restrict(live);
    assert(c1.contains_key(h) && c1[h] == chunks[h]);
    match crate::tree::model::node_at(chunks, h) {
        Some(NodeModel::Internal { children, .. }) => {
            assert forall|i: int| 0 <= i < children.len() implies live.contains(#[trigger] children[i].hash) || !chunks.contains_key(children[i].hash) by {
                if chunks.contains_key(children[i].hash) {
                    assert(node_refers(crate::tree::model::node_at(chunks, h).unwrap(), children[i].hash));
                    assert(chunk_refers(chunks, h, children[i].hash));
                }
            }
            lemma_children_restrict(chunks, live, children, (level - 1) as nat);
        },
        Some(NodeModel::Leaf { entries, .. }) => {
            assert forall|i: int, x: Seq<u8>|
                0 <= i < entries.len() && chunks.contains_key(x) && #[trigger] value_refers(entries[i].value, x) implies live.contains(x) by {
                assert(node_refers(crate::tree::model::node_at(chunks, h).unwrap(), x));
                assert(chunk_refers(chunks, h, x));
            }
        },
        None => {},
    }
}

proof fn lemma_children_restrict(
    chunks: Map<Seq<u8>, Seq<u8>>,
    live: Set<Seq<u8>>,
    cs: Seq<crate::node::definition::ChildModel>,
    level: nat,
)
    requires
        closed_under_refs(chunks, live),
        forall|i: int| 0 <= i < cs.len() ==> live.contains(#[trigger] cs[i].hash) || !chunks.contains_key(cs[i].hash),
        crate::tree::model::children_flat(chunks, cs, level) is Some,
    ensures
        crate::tree::model::children_flat(chunks.restrict(live), cs, level) == crate::tree::model::children_flat(
            chunks,
            cs,
            level,
        ),
        values_kept(chunks, live, crate::tree::model::children_flat(chunks, cs, level).unwrap()),
    decreases level, 1nat, cs.len(),
{
    if cs.len() > 0 {
        let init = cs.drop_last();
        assert forall|i: int| 0 <= i < init.len() implies live.contains(#[trigger] init[i].hash) || !chunks.contains_key(init[i].hash) by {
            assert(init[i] == cs[i]);
        }
        lemma_children_restrict(chunks, live, init, level);
        assert(live.contains(cs[cs.len() - 1].hash) || !chunks.contains_key(cs[cs.len() - 1].hash));
        lemma_subtree_restrict(chunks, live, cs.last().hash, level);
        lemma_values_kept_concat(
            chunks,
            live,
            crate::tree::model::children_flat(chunks, init, level).unwrap(),
            crate::tree::model::subtree(chunks, cs.last().hash, level).unwrap(),
        );
    } else {
        assert forall|i: int, x: Seq<u8>|
            0 <= i < Seq::<crate::node::definition::EntryModel>::empty().len() && chunks.contains_key(x)
                && #[trigger] value_refers(Seq::<crate::node::definition::EntryModel>::empty()[i].value, x) implies live.contains(x) by {}
    }
}

proof fn lemma_concat_chunks_restrict(chunks: Map<Seq<u8>, Seq<u8>>, live: Set<Seq<u8>>, hs: Seq<Seq<u8>>)
    requires
        forall|j: int| 0 <= j < hs.len() && chunks.contains_key(#[trigger] hs[j]) ==> live.contains(hs[j]),
    ensures
        crate::tree::io::concat_chunks(chunks.restrict(live), hs) == crate::tree::io::concat_chunks(chunks, hs),
    decreases hs.len(),
{
    if hs.len() > 0 {
        assert forall|j: int| 0 <= j < hs.drop_last().len() && chunks.contains_key(#[trigger] hs.drop_last()[j]) implies live.contains(hs.drop_last()[j]) by {
            assert(hs.drop_last()[j] == hs[j]);
        }
        lemma_concat_chunks_restrict(chunks, live, hs.drop_last());
        assert(chunks.contains_key(hs[hs.len() - 1]) ==> live.contains(hs[hs.len() - 1]));
    }
}

/// Values whose stored chunks are kept read the same from the kept chunks.
proof fn lemma_values_restrict(chunks: Map<Seq<u8>, Seq<u8>>, live: Set<Seq<u8>>, es: Seq<crate::node::definition::EntryModel>)
    requires
        values_kept(chunks, live, es),
    ensures
        forall|i: int| 0 <= i < es.len() ==> crate::tree::io::resolve_value(chunks.restrict(live), #[trigger] es[i].value)
            == crate::tree::io::resolve_value(chunks, es[i].value),
{
    assert forall|i: int| 0 <= i < es.len() implies crate::tree::io::resolve_value(chunks.restrict(live), #[trigger] es[i].value)
        == crate::tree::io::resolve_value(chunks, es[i].value) by {
        match es[i].value {
            ValueModel::Chunked(x) => {
                if chunks.contains_key(x) {
                    assert(value_refers(es[i].value, x));
                }
            },
            ValueModel::ChunkedSequence { hashes, .. } => {
                assert forall|j: int| 0 <= j < hashes.len() && chunks.contains_key(#[trigger] hashes[j]) implies live.contains(hashes[j]) by {
                    assert(value_refers(es[i].value, hashes[j]));
                }
                lemma_concat_chunks_restrict(chunks, live, hashes);
            },
            _ => {},
        }
    }
}

/// Collecting garbage with a tree's root among the live roots leaves the
/// tree as it was: same entries, same values.
pub proof fn law_gc_keeps_live_trees(chunks: Map<Seq<u8>, Seq<u8>>, roots: Set<Seq<u8>>, root: Seq<u8>)
    requires
        roots.contains(root),
        crate::tree::model::tree_entries(chunks, Some(root)) is Some,
        crate::tree::view::values_resolve(chunks, crate::tree::model::tree_entries(chunks, Some(root)).unwrap()),
    ensures
        ({
            let kept = chunks.restrict(reachable_set(chunks, roots));
            &&& crate::tree::model::tree_entries(kept, Some(root)) == crate::tree::model::tree_entries(chunks, Some(root))
            &&& crate::tree::view::values_resolve(kept, crate::tree::model::tree_entries(kept, Some(root)).unwrap())
            &&& crate::tree::view::tree_map(kept, Some(root)) == crate::tree::view::tree_map(chunks, Some(root))
        }),
{
    let live = reachable_set(chunks, roots);
    let kept = chunks.restrict(live);
    lemma_reachable_closed(chunks, roots);
    assert(reach(chunks, roots, 0).contains(root));
    assert(live.contains(root));
    let level = crate::tree::model::node_at(chunks, root).unwrap().level() as nat;
    lemma_subtree_restrict(chunks, live, root, level);
    assert(crate::tree::model::node_at(kept, root) == crate::tree::model::node_at(chunks, root));
    let es = crate::tree::model::tree_entries(chunks, Some(root)).unwrap();
    lemma_values_restrict(chunks, live, es);
    assert forall|i: int| 0 <= i < es.len() implies (#[trigger] crate::tree::io::resolve_value(kept, es[i].value)) is Some by {
        assert(crate::tree::io::resolve_value(chunks, es[i].value) is Some);
    }
    assert forall|k: Seq<u8>| #[trigger] crate::tree::view::entries_map(kept, es).dom().contains(k) implies crate::tree::view::entries_map(
        kept,
        es,
    )[k] == crate::tree::view::entries_map(chunks, es)[k] by {
        let j = choose|j: int| 0 <= j < es.len() && es[j].key == k;
        crate::tree::model::lemma_subtree_shape(chunks, root, level);
        crate::tree::model::lemma_lookup_at(es, j);
        assert(crate::tree::io::resolve_value(kept, es[j].value) == crate::tree::io::resolve_value(chunks, es[j].value));
    }
    assert(crate::tree::view::entries_map(kept, es) =~= crate::tree::view::entries_map(chunks, es));
}

} // verus!
