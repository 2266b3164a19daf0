//! The routing table: an ordered list of buckets whose ranges partition the
//! identifier space, with midpoint splitting of over-full buckets.
use crate::bucket::{
    insert_sorted, lemma_sorted_range_count, wf_bucket, Bucket, BucketModel, RangeEnd,
    BUCKET_MAX_CAPACITY,
};
use crate::hash::{hv, id_space_end, lemma_hv_bound, lemma_pow256_pos, HASH_LENGTH};
use crate::node::{Node, NodeID, NodeModel};
use vstd::prelude::*;

verus! {

broadcast use vstd::seq_lib::group_to_multiset_ensures;

/// Spec model of the routing table.
pub struct TableModel {
    pub self_id: Seq<u8>,
    pub buckets: Seq<BucketModel>,
}

/// The bucket ranges partition the identifier space `[0, 2^160)` exactly:
/// the first bucket starts at 0, each bucket ends where the next begins, and
/// the last bucket ends at 2^160.
pub open spec fn buckets_partition(bs: Seq<BucketModel>) -> bool {
    &&& bs.len() > 0
    &&& bs[0].from == 0
    &&& bs[bs.len() - 1].to == id_space_end()
    &&& forall|i: int| 0 <= i < bs.len() - 1 ==> (#[trigger] bs[i]).to == bs[i + 1].from
}

/// Every bucket is well formed: its contacts lie in its range, in strictly
/// ascending identifier order.
pub open spec fn buckets_wf(bs: Seq<BucketModel>) -> bool {
    forall|i: int| 0 <= i < bs.len() ==> wf_bucket(#[trigger] bs[i])
}

/// Every bucket holds at most K contacts.
pub open spec fn buckets_within_capacity(bs: Seq<BucketModel>) -> bool {
    forall|i: int| 0 <= i < bs.len() ==> (#[trigger] bs[i]).nodes.len() <= BUCKET_MAX_CAPACITY
}

/// Routing-table invariant: partition, containment, capacity.
pub open spec fn wf_table(t: TableModel) -> bool {
    &&& buckets_partition(t.buckets)
    &&& buckets_wf(t.buckets)
    &&& buckets_within_capacity(t.buckets)
    &&& t.self_id.len() == HASH_LENGTH
}

/// Index of the bucket whose range contains value `v`.
pub open spec fn find_idx(bs: Seq<BucketModel>, v: nat) -> int
    decreases bs.len(),
{
    if bs.len() <= 1 {
        0
    } else if v < bs[0].to {
        0
    } else {
        1 + find_idx(bs.drop_first(), v)
    }
}

/// Buckets earlier in the list cover lower values.
proof fn lemma_partition_monotone(bs: Seq<BucketModel>, q: int, j: int)
    requires
        forall|i: int| 0 <= i < bs.len() - 1 ==> (#[trigger] bs[i]).to == bs[i + 1].from,
        forall|i: int| 0 <= i < bs.len() ==> (#[trigger] bs[i]).from < bs[i].to,
        0 <= q < j < bs.len(),
    ensures
        bs[q].to <= bs[j].from,
    decreases j - q,
{
    if q + 1 == j {
        assert(bs[q].to == bs[q + 1].from);
    } else {
        lemma_partition_monotone(bs, q + 1, j);
        assert(bs[q].to == bs[q + 1].from);
    }
}

/// `find_idx` finds the unique bucket containing `v`.
proof fn lemma_find_idx_props(bs: Seq<BucketModel>, v: nat)
    requires
        buckets_partition(bs),
        forall|i: int| 0 <= i < bs.len() ==> (#[trigger] bs[i]).from < bs[i].to,
        v < id_space_end(),
    ensures
        0 <= find_idx(bs, v) < bs.len(),
        bs[find_idx(bs, v)].from <= v < bs[find_idx(bs, v)].to,
    decreases bs.len(),
{
    if bs.len() == 1 {
    } else if v < bs[0].to {
        assert(bs[0].from == 0);
    } else {
        let t = bs.drop_first();
        assert(t[t.len() - 1] == bs[bs.len() - 1]);
        assert(forall|i: int| 0 <= i < t.len() - 1 ==> (#[trigger] t[i]).to == t[i + 1].from);
        assert(t[0].from == bs[0].to);
        // shift the partition facts down one index; the first bucket of the
        // tail starts where the dropped bucket ended, which is at most v
        lemma_find_idx_tail(t, v, bs[0].to);
    }
}

/// Variant of `lemma_find_idx_props` for a tail whose first bucket starts at
/// `base` instead of 0.
proof fn lemma_find_idx_tail(bs: Seq<BucketModel>, v: nat, base: nat)
    requires
        bs.len() > 0,
        bs[0].from == base,
        base <= v,
        bs[bs.len() - 1].to == id_space_end(),
        forall|i: int| 0 <= i < bs.len() - 1 ==> (#[trigger] bs[i]).to == bs[i + 1].from,
        forall|i: int| 0 <= i < bs.len() ==> (#[trigger] bs[i]).from < bs[i].to,
        v < id_space_end(),
    ensures
        0 <= find_idx(bs, v) < bs.len(),
        bs[find_idx(bs, v)].from <= v < bs[find_idx(bs, v)].to,
    decreases bs.len(),
{
    if bs.len() == 1 {
    } else if v < bs[0].to {
    } else {
        let t = bs.drop_first();
        assert(t[t.len() - 1] == bs[bs.len() - 1]);
        assert(forall|i: int| 0 <= i < t.len() - 1 ==> (#[trigger] t[i]).to == t[i + 1].from);
        lemma_find_idx_tail(t, v, bs[0].to);
    }
}

/// Only one bucket of a partition can contain `v`.
proof fn lemma_find_idx_unique(bs: Seq<BucketModel>, v: nat, j: int)
    requires
        buckets_partition(bs),
        forall|i: int| 0 <= i < bs.len() ==> (#[trigger] bs[i]).from < bs[i].to,
        v < id_space_end(),
        0 <= j < bs.len(),
        bs[j].from <= v < bs[j].to,
    ensures
        find_idx(bs, v) == j,
{
    lemma_find_idx_props(bs, v);
    let k = find_idx(bs, v);
    if k < j {
        lemma_partition_monotone(bs, k, j);
        assert(false);
    } else if j < k {
        lemma_partition_monotone(bs, j, k);
        assert(false);
    }
}

/// Position of the first contact whose identifier value is at or above `m`.
pub open spec fn split_at_val(s: Seq<NodeModel>, m: nat) -> int
    decreases s.len(),
{
    if s.len() == 0 {
        0
    } else if hv(s[0].id) >= m {
        0
    } else {
        1 + split_at_val(s.drop_first(), m)
    }
}

proof fn lemma_split_at_val_is(s: Seq<NodeModel>, m: nat, p: int)
    requires
        0 <= p <= s.len(),
        forall|j: int| 0 <= j < p ==> hv(#[trigger] s[j].id) < m,
        forall|j: int| p <= j < s.len() ==> hv(#[trigger] s[j].id) >= m,
    ensures
        split_at_val(s, m) == p,
    decreases p,
{
    if p == 0 {
    } else {
        let t = s.drop_first();
        lemma_split_at_val_is(t, m, p - 1);
    }
}

/// Split a bucket at the midpoint of its range: the lower half keeps the
/// contacts below the midpoint, the upper half takes the rest.
pub open spec fn split_bucket(b: BucketModel) -> (BucketModel, BucketModel) {
    let m = (b.from + b.to) / 2;
    let p = split_at_val(b.nodes, m);
    (
        BucketModel { from: b.from, to: m, nodes: b.nodes.subrange(0, p) },
        BucketModel { from: m, to: b.to, nodes: b.nodes.subrange(p, b.nodes.len() as int) },
    )
}

/// Split the bucket, and keep splitting the half that holds identifier value
/// `v`, until that half is within capacity. The result is the list of pieces
/// in ascending range order.
pub open spec fn overfull_split(b: BucketModel, v: nat) -> Seq<BucketModel>
    decreases b.to - b.from,
{
    if b.nodes.len() <= BUCKET_MAX_CAPACITY || b.to - b.from < 2 {
        seq![b]
    } else {
        let (l, r) = split_bucket(b);
        if v < r.from {
            overfull_split(l, v) + seq![r]
        } else {
            seq![l] + overfull_split(r, v)
        }
    }
}

/// All contacts of a bucket list, in bucket order.
pub open spec fn all_nodes(bs: Seq<BucketModel>) -> Seq<NodeModel>
    decreases bs.len(),
{
    if bs.len() == 0 {
        Seq::empty()
    } else {
        bs[0].nodes + all_nodes(bs.drop_first())
    }
}

pub proof fn lemma_all_nodes_concat(x: Seq<BucketModel>, y: Seq<BucketModel>)
    ensures
        all_nodes(x + y) == all_nodes(x) + all_nodes(y),
    decreases x.len(),
{
    if x.len() == 0 {
        assert(x + y =~= y);
        assert(all_nodes(x) + all_nodes(y) =~= all_nodes(y));
    } else {
        assert((x + y).drop_first() =~= x.drop_first() + y);
        lemma_all_nodes_concat(x.drop_first(), y);
        assert(all_nodes(x) + all_nodes(y) =~= x[0].nodes + (all_nodes(x.drop_first())
            + all_nodes(y)));
    }
}

/// A contact list holds the given contact.
pub open spec fn has_node(s: Seq<NodeModel>, n: NodeModel) -> bool {
    exists|i: int| 0 <= i < s.len() && s[i] == n
}

/// What ordered insertion does: the result is sorted, stays within the
/// range, grows by at most one, holds the new contact, holds nothing else
/// new, and is unchanged when the very same contact was already present.
pub proof fn lemma_insert_sorted_props(s: Seq<NodeModel>, n: NodeModel, from: nat, to: nat)
    requires
        forall|i: int|
            0 <= i < s.len() ==> (#[trigger] s[i]).id.len() == HASH_LENGTH && from <= hv(s[i].id)
                < to,
        forall|i: int, j: int|
            0 <= i < j < s.len() ==> hv(#[trigger] s[i].id) < hv(#[trigger] s[j].id),
        n.id.len() == HASH_LENGTH,
        from <= hv(n.id) < to,
    ensures
        forall|i: int|
            0 <= i < insert_sorted(s, n).len() ==> (#[trigger] insert_sorted(s, n)[i]).id.len()
                == HASH_LENGTH && from <= hv(insert_sorted(s, n)[i].id) < to,
        forall|i: int, j: int|
            0 <= i < j < insert_sorted(s, n).len() ==> hv(#[trigger] insert_sorted(s, n)[i].id)
                < hv(#[trigger] insert_sorted(s, n)[j].id),
        s.len() <= insert_sorted(s, n).len() <= s.len() + 1,
        has_node(insert_sorted(s, n), n),
        forall|m: NodeModel|
            has_node(insert_sorted(s, n), m) ==> m == n || has_node(s, m),
        forall|k: int| 0 <= k < s.len() && s[k] == n ==> insert_sorted(s, n) == s,
    decreases s.len(),
{
    let r = insert_sorted(s, n);
    if s.len() == 0 {
        assert(r[0] == n);
    } else if hv(n.id) < hv(s[0].id) {
        assert(r[0] == n);
        assert forall|m: NodeModel| has_node(r, m) implies m == n || has_node(s, m) by {
            let i = choose|i: int| 0 <= i < r.len() && r[i] == m;
            if i > 0 {
                assert(s[i - 1] == m);
            }
        }
    } else if hv(n.id) == hv(s[0].id) {
        assert(r[0] == n);
        assert forall|m: NodeModel| has_node(r, m) implies m == n || has_node(s, m) by {
            let i = choose|i: int| 0 <= i < r.len() && r[i] == m;
            if i > 0 {
                assert(s[i] == m);
            }
        }
        assert forall|k: int| 0 <= k < s.len() && s[k] == n implies r == s by {
            // identifiers are strictly ascending, so only position 0 matches
            if k > 0 {
                assert(hv(s[0].id) < hv(s[k].id));
                assert(false);
            }
            assert(r =~= s);
        }
    } else {
        let t = s.drop_first();
        lemma_insert_sorted_props(t, n, hv(s[0].id) + 1, to);
        let rt = insert_sorted(t, n);
        assert(r == seq![s[0]] + rt);
        assert(r[0] == s[0]);
        assert(forall|i: int| 0 <= i < rt.len() ==> r[i + 1] == rt[i]);
        assert(has_node(rt, n));
        let w = choose|i: int| 0 <= i < rt.len() && rt[i] == n;
        assert(r[w + 1] == n);
        assert forall|m: NodeModel| has_node(r, m) implies m == n || has_node(s, m) by {
            let i = choose|i: int| 0 <= i < r.len() && r[i] == m;
            if i == 0 {
                assert(s[0] == m);
                assert(has_node(s, m));
            } else {
                assert(rt[i - 1] == m);
                assert(has_node(rt, m));
                if m != n {
                    assert(has_node(t, m));
                    let j = choose|j: int| 0 <= j < t.len() && t[j] == m;
                    assert(s[j + 1] == m);
                    assert(has_node(s, m));
                }
            }
        }
        assert forall|k: int| 0 <= k < s.len() && s[k] == n implies r == s by {
            assert(k > 0);
            assert(t[k - 1] == n);
            assert(rt == t);
            assert(r =~= s);
        }
    }
}

/// What the over-full split produces: pieces that tile the bucket's range in
/// order, each well formed and within capacity, holding exactly the
/// bucket's contacts in their original order.
#[verifier::rlimit(60)]
#[verifier::spinoff_prover]
pub proof fn lemma_overfull_split_props(b: BucketModel, v: nat)
    requires
        wf_bucket(b),
        b.nodes.len() <= BUCKET_MAX_CAPACITY + 1,
        b.from <= v < b.to,
        b.nodes.len() > BUCKET_MAX_CAPACITY ==> exists|k: int|
            0 <= k < b.nodes.len() && hv(#[trigger] b.nodes[k].id) == v,
    ensures
        overfull_split(b, v).len() >= 1,
        overfull_split(b, v)[0].from == b.from,
        overfull_split(b, v)[overfull_split(b, v).len() - 1].to == b.to,
        forall|q: int|
            0 <= q < overfull_split(b, v).len() - 1 ==> (#[trigger] overfull_split(b, v)[q]).to
                == overfull_split(b, v)[q + 1].from,
        forall|q: int|
            0 <= q < overfull_split(b, v).len() ==> wf_bucket(#[trigger] overfull_split(b, v)[q]),
        forall|q: int|
            0 <= q < overfull_split(b, v).len() ==> (#[trigger] overfull_split(
                b,
                v,
            )[q]).nodes.len() <= BUCKET_MAX_CAPACITY,
        all_nodes(overfull_split(b, v)) == b.nodes,
    decreases b.to - b.from,
{
    let s = overfull_split(b, v);
    if b.nodes.len() <= BUCKET_MAX_CAPACITY || b.to - b.from < 2 {
        if b.nodes.len() > BUCKET_MAX_CAPACITY {
            lemma_sorted_range_count(b.nodes, b.from, b.to);
            assert(false);
        }
        assert(s == seq![b]);
        assert(s.drop_first() =~= Seq::<BucketModel>::empty());
        assert(all_nodes(Seq::<BucketModel>::empty()) == Seq::<NodeModel>::empty());
        assert(all_nodes(s) =~= b.nodes);
    } else {
        let m = (b.from + b.to) / 2;
        let p = split_at_val(b.nodes, m);
        let (l, r) = split_bucket(b);
        lemma_split_at_val_props(b.nodes, m);
        assert(b.from < m < b.to);
        // the contacts at or after p are at or above m, by sortedness
        assert forall|j: int| p <= j < b.nodes.len() implies hv(
            #[trigger] b.nodes[j].id,
        ) >= m by {
            if j > p {
                assert(hv(b.nodes[p].id) < hv(b.nodes[j].id));
            }
        }
        assert(wf_bucket(l));
        assert(wf_bucket(r));
        assert(l.nodes.len() + r.nodes.len() == b.nodes.len());
        assert(l.nodes + r.nodes =~= b.nodes);
        let k = choose|k: int| 0 <= k < b.nodes.len() && hv(#[trigger] b.nodes[k].id) == v;
        if v < m {
            // the contact with value v sits in the lower half
            assert(k < p);
            assert(l.nodes[k] == b.nodes[k]);
            assert(r.nodes.len() <= BUCKET_MAX_CAPACITY);
            lemma_overfull_split_props(l, v);
            lemma_all_nodes_concat(overfull_split(l, v), seq![r]);
            assert(seq![r].drop_first() =~= Seq::<BucketModel>::empty());
            assert(all_nodes(Seq::<BucketModel>::empty()) == Seq::<NodeModel>::empty());
            assert(all_nodes(seq![r]) =~= r.nodes);
            assert(s == overfull_split(l, v) + seq![r]);
            assert(all_nodes(s) =~= b.nodes);
            assert(s[s.len() - 1] == r);
            assert(s[0] == overfull_split(l, v)[0]);
            assert(forall|q: int|
                0 <= q < s.len() - 1 ==> (#[trigger] s[q]) == overfull_split(l, v)[q]);
        } else {
            assert(k >= p);
            assert(r.nodes[k - p] == b.nodes[k]);
            assert(l.nodes.len() <= BUCKET_MAX_CAPACITY);
            lemma_overfull_split_props(r, v);
            lemma_all_nodes_concat(seq![l], overfull_split(r, v));
            assert(seq![l].drop_first() =~= Seq::<BucketModel>::empty());
            assert(all_nodes(Seq::<BucketModel>::empty()) == Seq::<NodeModel>::empty());
            assert(all_nodes(seq![l]) =~= l.nodes);
            assert(s == seq![l] + overfull_split(r, v));
            assert(all_nodes(s) =~= b.nodes);
            assert(s[0] == l);
            assert(forall|q: int|
                1 <= q < s.len() ==> (#[trigger] s[q]) == overfull_split(r, v)[q - 1]);
        }
    }
}

/// Basic facts about `split_at_val`: everything before the position is below
/// `m`, and the position itself (if any) is not.
proof fn lemma_split_at_val_props(s: Seq<NodeModel>, m: nat)
    ensures
        0 <= split_at_val(s, m) <= s.len(),
        forall|j: int| 0 <= j < split_at_val(s, m) ==> hv(#[trigger] s[j].id) < m,
        split_at_val(s, m) < s.len() ==> hv(s[split_at_val(s, m)].id) >= m,
    decreases s.len(),
{
    if s.len() > 0 && hv(s[0].id) < m {
        let t = s.drop_first();
        lemma_split_at_val_props(t, m);
        assert forall|j: int| 0 <= j < split_at_val(s, m) implies hv(#[trigger] s[j].id) < m by {
            if j > 0 {
                assert(t[j - 1] == s[j]);
            }
        }
    }
}

/// The routing table after inserting a contact: the contact goes into the
/// bucket whose range holds its identifier, and that bucket is split at
/// range midpoints until it is back within capacity.
pub open spec fn table_with_insert(t: TableModel, n: NodeModel) -> TableModel {
    let v = hv(n.id);
    let i = find_idx(t.buckets, v);
    let b0 = t.buckets[i];
    let b1 = BucketModel { from: b0.from, to: b0.to, nodes: insert_sorted(b0.nodes, n) };
    TableModel {
        self_id: t.self_id,
        buckets: t.buckets.subrange(0, i) + overfull_split(b1, v) + t.buckets.subrange(
            i + 1,
            t.buckets.len() as int,
        ),
    }
}

/// Inserting preserves the routing-table invariant.
#[verifier::rlimit(100)]
#[verifier::spinoff_prover]
pub proof fn lemma_table_insert_wf(t: TableModel, n: NodeModel)
    requires
        wf_table(t),
        n.id.len() == HASH_LENGTH,
    ensures
        wf_table(table_with_insert(t, n)),
        has_node(all_nodes(table_with_insert(t, n).buckets), n),
{
    lemma_hv_bound(n.id);
    let v = hv(n.id);
    let i = find_idx(t.buckets, v);
    lemma_find_idx_props(t.buckets, v);
    let b0 = t.buckets[i];
    let b1 = BucketModel { from: b0.from, to: b0.to, nodes: insert_sorted(b0.nodes, n) };
    lemma_insert_sorted_props(b0.nodes, n, b0.from, b0.to);
    assert(wf_bucket(b1));
    if b1.nodes.len() > BUCKET_MAX_CAPACITY {
        assert(has_node(b1.nodes, n));
        let w = choose|w: int| 0 <= w < b1.nodes.len() && b1.nodes[w] == n;
        assert(hv(b1.nodes[w].id) == v);
    }
    lemma_overfull_split_props(b1, v);
    let parts = overfull_split(b1, v);
    let bs = table_with_insert(t, n).buckets;
    let pre = t.buckets.subrange(0, i);
    let post = t.buckets.subrange(i + 1, t.buckets.len() as int);
    assert(bs.len() == pre.len() + parts.len() + post.len());
    assert(forall|q: int| 0 <= q < pre.len() ==> bs[q] == t.buckets[q]);
    assert(forall|q: int| 0 <= q < parts.len() ==> bs[pre.len() + q] == parts[q]);
    assert(forall|q: int|
        0 <= q < post.len() ==> bs[pre.len() + parts.len() + q] == #[trigger] t.buckets[i + 1
            + q]);
    // partition: ends line up across the three pieces
    assert(bs[0].from == 0);
    assert(bs[bs.len() - 1].to == id_space_end());
    assert forall|q: int| 0 <= q < bs.len() - 1 implies (#[trigger] bs[q]).to == bs[q + 1].from by {
        if q < pre.len() - 1 {
        } else if q == pre.len() - 1 {
            assert(bs[q] == t.buckets[q]);
            assert(bs[q + 1] == parts[0]);
        } else if q < pre.len() + parts.len() - 1 {
        } else if q == pre.len() + parts.len() - 1 {
            assert(bs[q] == parts[parts.len() - 1]);
            assert(bs[q + 1] == t.buckets[i + 1]);
        } else {
        }
    }
    // membership of the inserted contact
    let w = choose|w: int| 0 <= w < b1.nodes.len() && b1.nodes[w] == n;
    lemma_all_nodes_concat(pre + parts, post);
    lemma_all_nodes_concat(pre, parts);
    assert(pre + parts + post =~= (pre + parts) + post);
    assert(all_nodes(bs) == all_nodes(pre) + all_nodes(parts) + all_nodes(post));
    assert(all_nodes(parts) == b1.nodes);
    let off = all_nodes(pre).len();
    assert(all_nodes(bs)[off + w] == b1.nodes[w]);
}

/// An ordered vector of buckets covering the whole identifier space; inserts
/// route to the bucket whose range contains the identifier, and over-full
/// buckets are split at the midpoint of their range.
pub struct KademliaTable {
    self_id: NodeID,
    buckets: Vec<Bucket>,
}

impl View for KademliaTable {
    type V = TableModel;

    closed spec fn view(&self) -> TableModel {
        TableModel {
            self_id: self.self_id@,
            buckets: self.buckets@.map_values(|b: Bucket| b@),
        }
    }
}

impl KademliaTable {
    /// A table with one empty bucket covering the whole identifier space.
    pub fn new(self_id: NodeID) -> (r: KademliaTable)
        ensures
            wf_table(r@),
            r@.self_id == self_id@,
            r@.buckets.len() == 1,
            r@.buckets[0].nodes.len() == 0,
    {
        proof {
            lemma_pow256_pos(HASH_LENGTH as nat);
        }
        let b = Bucket::new(crate::hash::min_hash(), RangeEnd::Top);
        let mut buckets: Vec<Bucket> = Vec::new();
        buckets.push(b);
        let r = KademliaTable { self_id, buckets };
        proof {
            assert(r@.buckets =~= seq![b@]);
        }
        r
    }

    /// The table's own identifier.
    pub fn self_id(&self) -> (r: NodeID)
        ensures
            r@ == self@.self_id,
    {
        self.self_id
    }

    /// How many buckets the table holds.
    pub fn bucket_count(&self) -> (r: usize)
        ensures
            r == self@.buckets.len(),
    {
        self.buckets.len()
    }

    /// The bucket at the given position, in ascending range order.
    pub fn bucket_at(&self, i: usize) -> (r: &Bucket)
        requires
            i < self@.buckets.len(),
        ensures
            r@ == self@.buckets[i as int],
    {
        &self.buckets[i]
    }

    /// Index of the unique bucket whose range contains the identifier.
    pub fn find_bucket_index(&self, id: &NodeID) -> (r: usize)
        requires
            wf_table(self@),
        ensures
            r < self@.buckets.len(),
            self@.buckets[r as int].from <= hv(id@) < self@.buckets[r as int].to,
            r == find_idx(self@.buckets, hv(id@)),
    {
        proof {
            lemma_hv_bound(id@);
        }
        let ghost v = hv(id@);
        let mut i: usize = 0;
        while i < self.buckets.len()
            invariant
                wf_table(self@),
                v == hv(id@),
                v < id_space_end(),
                self@.buckets == self.buckets@.map_values(|b: Bucket| b@),
                i < self@.buckets.len(),
                v >= self@.buckets[i as int].from,
            decreases self@.buckets.len() - i,
        {
            if self.buckets[i].node_in_range(id) {
                proof {
                    lemma_find_idx_unique(self@.buckets, v, i as int);
                }
                return i;
            }
            proof {
                let bs = self@.buckets;
                assert(v >= bs[i as int].to);
                if i as int == bs.len() - 1 {
                    assert(bs[i as int].to == id_space_end());
                    assert(false);
                }
                assert(bs[i as int].to == bs[i as int + 1].from);
            }
            i += 1;
        }
        proof {
            assert(false);
        }
        0
    }

    /// Insert a contact: it lands in the bucket covering its identifier,
    /// replacing any contact with the same identifier, and the bucket is
    /// split until it is back within capacity.
    pub fn insert_node(&mut self, node: Node)
        requires
            wf_table(old(self)@),
            node@.id.len() == HASH_LENGTH,
        ensures
            wf_table(final(self)@),
            final(self)@ == table_with_insert(old(self)@, node@),
            has_node(all_nodes(final(self)@.buckets), node@),
    {
        proof {
            lemma_hv_bound(node.id@);
            lemma_table_insert_wf(old(self)@, node@);
        }
        let ghost t0 = self@;
        let ghost v = hv(node@.id);
        let i = self.find_bucket_index(&node.id);
        let mut b = self.buckets.remove(i);
        proof {
            assert(self@.buckets =~= t0.buckets.subrange(0, i as int) + t0.buckets.subrange(
                i as int + 1,
                t0.buckets.len() as int,
            ));
            assert(b@ == t0.buckets[i as int]);
        }
        b.insert(node);
        let ghost b1 = b@;
        proof {
            lemma_insert_sorted_props(t0.buckets[i as int].nodes, node@, b1.from, b1.to);
            if b1.nodes.len() > BUCKET_MAX_CAPACITY {
                let w = choose|w: int| 0 <= w < b1.nodes.len() && b1.nodes[w] == node@;
                assert(hv(b1.nodes[w].id) == v);
            }
        }
        let mut parts = split_to_capacity(b, &node.id);
        let ghost parts0 = parts@.map_values(|x: Bucket| x@);
        let ghost pre = t0.buckets.subrange(0, i as int);
        let ghost post = t0.buckets.subrange(i as int + 1, t0.buckets.len() as int);
        proof {
            assert(parts0.subrange(0, parts0.len() as int) =~= parts0);
            assert(pre + parts0.subrange(parts0.len() as int, parts0.len() as int) + post =~= pre
                + post);
        }
        while parts.len() > 0
            invariant
                i <= self.buckets@.len(),
                self@.self_id == t0.self_id,
                parts@.len() <= parts0.len(),
                parts@.map_values(|x: Bucket| x@) == parts0.subrange(0, parts@.len() as int),
                self@.buckets == self.buckets@.map_values(|b: Bucket| b@),
                pre.len() == i,
                self@.buckets == pre + parts0.subrange(parts@.len() as int, parts0.len() as int)
                    + post,
            decreases parts@.len(),
        {
            let ghost k = parts@.len() as int;
            let ghost pv = parts@;
            let p = parts.pop().unwrap();
            proof {
                assert(p == pv[k - 1]);
                assert(pv.map_values(|x: Bucket| x@)[k - 1] == pv[k - 1]@);
                assert(p@ == parts0.subrange(0, k)[k - 1]);
                assert(p@ == parts0[k - 1]);
                assert(parts@ == pv.subrange(0, k - 1));
                let pm2 = parts@.map_values(|x: Bucket| x@);
                assert forall|z: int| 0 <= z < k - 1 implies #[trigger] pm2[z] == parts0.subrange(
                    0,
                    k - 1,
                )[z] by {
                    assert(parts@[z] == pv[z]);
                    assert(pv.map_values(|x: Bucket| x@)[z] == pv[z]@);
                    assert(parts0.subrange(0, k)[z] == parts0[z]);
                }
                assert(pm2 =~= parts0.subrange(0, k - 1));
            }
            let ghost bv0 = self.buckets@;
            let ghost old_model = self@.buckets;
            self.buckets.insert(i, p);
            proof {
                let nm = self.buckets@.map_values(|b: Bucket| b@);
                let target = pre + parts0.subrange(k - 1, parts0.len() as int) + post;
                let mid = parts0.subrange(k, parts0.len() as int);
                assert(old_model == pre + mid + post);
                assert(old_model.len() == bv0.len());
                assert(self.buckets@.len() == bv0.len() + 1);
                assert(old_model.len() == pre.len() + mid.len() + post.len());
                assert forall|z: int| 0 <= z < nm.len() implies #[trigger] nm[z] == target[z] by {
                    assert(nm[z] == self.buckets@[z]@);
                    assert(nm.len() == bv0.len() + 1);
                    if z < i {
                        assert(self.buckets@[z] == bv0[z]);
                        assert(old_model[z] == bv0[z]@);
                        assert(old_model[z] == pre[z]);
                        assert(target[z] == pre[z]);
                    } else if z == i {
                        assert(self.buckets@[z] == p);
                        assert(target[z] == parts0.subrange(k - 1, parts0.len() as int)[0]);
                        assert(target[z] == parts0[k - 1]);
                    } else {
                        assert(self.buckets@[z] == bv0[z - 1]);
                        assert(old_model[z - 1] == bv0[z - 1]@);
                        if z - 1 < i + mid.len() {
                            assert(old_model[z - 1] == mid[z - 1 - i]);
                            assert(mid[z - 1 - i] == parts0[k + z - 1 - i]);
                            assert(target[z] == parts0.subrange(k - 1, parts0.len() as int)[z
                                - i]);
                        } else {
                            assert(old_model[z - 1] == post[z - 1 - i - mid.len()]);
                            assert(target[z] == post[z - i - 1 - mid.len()]);
                        }
                    }
                }
                assert(self@.buckets =~= pre + parts0.subrange(k - 1, parts0.len() as int) + post);
            }
        }
        proof {
            assert(parts0.subrange(0, parts0.len() as int) =~= parts0);
            assert(self@.buckets =~= pre + parts0 + post);
            assert(self@.self_id == t0.self_id);
            assert(self@ == table_with_insert(t0, node@));
        }
    }
}

/// Split a bucket at range midpoints until the piece holding the given
/// identifier is within capacity; the pieces come back in range order.
fn split_to_capacity(b: Bucket, id: &NodeID) -> (r: Vec<Bucket>)
    requires
        wf_bucket(b@),
        b@.nodes.len() <= BUCKET_MAX_CAPACITY + 1,
        b@.from <= hv(id@) < b@.to,
        b@.nodes.len() > BUCKET_MAX_CAPACITY ==> exists|k: int|
            0 <= k < b@.nodes.len() && hv(#[trigger] b@.nodes[k].id) == hv(id@),
    ensures
        r@.map_values(|x: Bucket| x@) == overfull_split(b@, hv(id@)),
    decreases b@.to - b@.from,
{
    let ghost v = hv(id@);
    let ghost bm = b@;
    if b.size() <= BUCKET_MAX_CAPACITY {
        let mut out: Vec<Bucket> = Vec::new();
        out.push(b);
        proof {
            assert(out@.map_values(|x: Bucket| x@) =~= seq![bm]);
        }
        out
    } else {
        proof {
            if bm.to - bm.from < 2 {
                lemma_sorted_range_count(bm.nodes, bm.from, bm.to);
                assert(false);
            }
        }
        let mut left = b;
        let right = left.splite();
        let ghost lm = left@;
        let ghost rm = right@;
        proof {
            let m = (bm.from + bm.to) / 2;
            let p = lm.nodes.len() as int;
            assert(forall|j: int| 0 <= j < p ==> bm.nodes[j] == lm.nodes[j]);
            assert(forall|j: int|
                p <= j < bm.nodes.len() ==> bm.nodes[j] == rm.nodes[j - p]);
            lemma_split_at_val_is(bm.nodes, m, p);
            assert(bm.nodes.subrange(0, p) =~= lm.nodes);
            assert(bm.nodes.subrange(p, bm.nodes.len() as int) =~= rm.nodes);
            assert(split_bucket(bm) == (lm, rm));
            // the contact with the given identifier sits in exactly one half
            let k = choose|k: int| 0 <= k < bm.nodes.len() && hv(#[trigger] bm.nodes[k].id) == v;
            if v < m {
                assert forall|j: int| p <= j < bm.nodes.len() implies hv(
                    #[trigger] bm.nodes[j].id,
                ) != v by {}
                assert(k < p);
                assert(lm.nodes[k] == bm.nodes[k]);
                assert(rm.nodes.len() <= BUCKET_MAX_CAPACITY);
            } else {
                assert(k >= p);
                assert(rm.nodes[k - p] == bm.nodes[k]);
                assert(lm.nodes.len() <= BUCKET_MAX_CAPACITY);
            }
        }
        if right.node_in_range(id) {
            let mut out = split_to_capacity(right, id);
            out.insert(0, left);
            proof {
                assert(out@.map_values(|x: Bucket| x@) =~= seq![lm] + overfull_split(rm, v));
            }
            out
        } else {
            let mut out = split_to_capacity(left, id);
            out.push(right);
            proof {
                assert(out@.map_values(|x: Bucket| x@) =~= overfull_split(lm, v) + seq![rm]);
            }
            out
        }
    }
}

/// After an insert, some bucket of the new table covers the contact's
/// identifier and holds the contact.
#[verifier::rlimit(60)]
pub proof fn lemma_table_insert_finds(t: TableModel, n: NodeModel) -> (j: int)
    requires
        wf_table(t),
        n.id.len() == HASH_LENGTH,
    ensures
        0 <= j < table_with_insert(t, n).buckets.len(),
        table_with_insert(t, n).buckets[j].from <= hv(n.id) < table_with_insert(t, n).buckets[j].to,
        has_node(table_with_insert(t, n).buckets[j].nodes, n),
{
    lemma_hv_bound(n.id);
    let v = hv(n.id);
    let i = find_idx(t.buckets, v);
    lemma_find_idx_props(t.buckets, v);
    let b0 = t.buckets[i];
    let b1 = BucketModel { from: b0.from, to: b0.to, nodes: insert_sorted(b0.nodes, n) };
    lemma_insert_sorted_props(b0.nodes, n, b0.from, b0.to);
    if b1.nodes.len() > BUCKET_MAX_CAPACITY {
        let w = choose|w: int| 0 <= w < b1.nodes.len() && b1.nodes[w] == n;
        assert(hv(b1.nodes[w].id) == v);
    }
    lemma_overfull_split_props(b1, v);
    let parts = overfull_split(b1, v);
    let pre = t.buckets.subrange(0, i);
    let bs = table_with_insert(t, n).buckets;
    assert(forall|q: int| 0 <= q < parts.len() ==> bs[pre.len() + q] == parts[q]);
    let w = choose|w: int| 0 <= w < b1.nodes.len() && b1.nodes[w] == n;
    lemma_all_nodes_in_piece(parts, b1.nodes, w);
    let (q, u) = choose|q: int, u: int|
        0 <= q < parts.len() && 0 <= u < parts[q].nodes.len() && #[trigger] parts[q].nodes[u]
            == b1.nodes[w];
    assert(parts[q].nodes[u] == n);
    assert(wf_bucket(parts[q]));
    assert(parts[q].from <= v < parts[q].to);
    let j = pre.len() + q;
    assert(bs[j] == parts[q]);
    assert(has_node(bs[j].nodes, n));
    j as int
}

/// Inserting a contact that already sits in its bucket leaves the table
/// unchanged: the insert replaces the contact with itself and causes no
/// split.
#[verifier::rlimit(60)]
#[verifier::spinoff_prover]
proof fn lemma_insert_present_unchanged(t1: TableModel, n: NodeModel, j: int)
    requires
        wf_table(t1),
        n.id.len() == HASH_LENGTH,
        0 <= j < t1.buckets.len(),
        t1.buckets[j].from <= hv(n.id) < t1.buckets[j].to,
        has_node(t1.buckets[j].nodes, n),
    ensures
        table_with_insert(t1, n) == t1,
{
    lemma_hv_bound(n.id);
    let v = hv(n.id);
    let bs = t1.buckets;
    assert(forall|z: int| 0 <= z < bs.len() ==> (#[trigger] bs[z]).from < bs[z].to);
    lemma_find_idx_unique(bs, v, j);
    let c1 = bs[j];
    lemma_insert_sorted_props(c1.nodes, n, c1.from, c1.to);
    let k = choose|k: int| 0 <= k < c1.nodes.len() && c1.nodes[k] == n;
    assert(insert_sorted(c1.nodes, n) == c1.nodes);
    let c2 = BucketModel { from: c1.from, to: c1.to, nodes: insert_sorted(c1.nodes, n) };
    assert(c2 == c1);
    assert(c2.nodes.len() <= BUCKET_MAX_CAPACITY);
    assert(overfull_split(c2, v) == seq![c1]);
    assert(table_with_insert(t1, n).buckets == bs.subrange(0, j) + seq![c1] + bs.subrange(
        j + 1,
        bs.len() as int,
    ));
    assert(bs.subrange(0, j) + seq![c1] + bs.subrange(j + 1, bs.len() as int) =~= bs);
    assert(table_with_insert(t1, n) == t1);
}

/// Inserting the same contact twice leaves the table exactly as one insert
/// leaves it.
pub proof fn lemma_insert_idempotent(t: TableModel, n: NodeModel)
    requires
        wf_table(t),
        n.id.len() == HASH_LENGTH,
    ensures
        table_with_insert(table_with_insert(t, n), n) == table_with_insert(t, n),
{
    lemma_table_insert_wf(t, n);
    let j = lemma_table_insert_finds(t, n);
    lemma_insert_present_unchanged(table_with_insert(t, n), n, j);
}

/// Every contact of a bucket list sits in one of the buckets.
proof fn lemma_all_nodes_in_piece(parts: Seq<BucketModel>, nodes: Seq<NodeModel>, w: int)
    requires
        all_nodes(parts) == nodes,
        0 <= w < nodes.len(),
    ensures
        exists|q: int, u: int|
            0 <= q < parts.len() && 0 <= u < parts[q].nodes.len() && #[trigger] parts[q].nodes[u]
                == nodes[w],
    decreases parts.len(),
{
    assert(parts.len() > 0);
    let first = parts[0].nodes;
    if w < first.len() {
        assert(parts[0].nodes[w] == nodes[w]);
    } else {
        let rest = parts.drop_first();
        lemma_all_nodes_in_piece(rest, all_nodes(rest), w - first.len());
        let (q, u) = choose|q: int, u: int|
            0 <= q < rest.len() && 0 <= u < rest[q].nodes.len() && #[trigger] rest[q].nodes[u]
                == all_nodes(rest)[w - first.len()];
        assert(parts[q + 1].nodes[u] == nodes[w]);
    }
}

/// Bitwise XOR of two equal-length byte strings.
pub open spec fn xor_bytes(a: Seq<u8>, b: Seq<u8>) -> Seq<u8> {
    Seq::new(a.len(), |i: int| a[i] ^ b[i])
}

/// The Kademlia distance between a target and an identifier: the numeric
/// value of their bitwise XOR.
pub open spec fn dist(tgt: Seq<u8>, id: Seq<u8>) -> nat {
    hv(xor_bytes(tgt, id))
}

/// View of a contact vector.
pub open spec fn nodes_model(s: Seq<Node>) -> Seq<NodeModel> {
    s.map_values(|n: Node| n@)
}

/// What `closest` returns: as many contacts as asked for (or as the table
/// holds, if fewer), all drawn from the table, in ascending XOR distance
/// from the target, and no contact left behind is closer than a returned
/// one.
pub open spec fn closest_post(
    all: Seq<NodeModel>,
    tgt: Seq<u8>,
    k: int,
    ns: Seq<NodeModel>,
) -> bool {
    &&& ns.len() == if k <= all.len() {
        k
    } else {
        all.len() as int
    }
    &&& ns.to_multiset().subset_of(all.to_multiset())
    &&& forall|i: int, j: int|
        0 <= i < j < ns.len() ==> dist(tgt, #[trigger] ns[i].id) <= dist(tgt, #[trigger] ns[j].id)
    &&& forall|i: int, m: NodeModel|
        0 <= i < ns.len() && #[trigger] all.to_multiset().count(m) > ns.to_multiset().count(m)
            ==> dist(tgt, #[trigger] ns[i].id) <= dist(tgt, m.id)
}

proof fn lemma_nodes_model_remove(s: Seq<Node>, i: int)
    requires
        0 <= i < s.len(),
    ensures
        nodes_model(s.remove(i)) == nodes_model(s).remove(i),
{
    assert forall|z: int| 0 <= z < s.len() - 1 implies #[trigger] nodes_model(s.remove(i))[z]
        == nodes_model(s).remove(i)[z] by {
        if z < i {
            assert(s.remove(i)[z] == s[z]);
        } else {
            assert(s.remove(i)[z] == s[z + 1]);
        }
    }
    assert(nodes_model(s.remove(i)) =~= nodes_model(s).remove(i));
}

proof fn lemma_nodes_model_push(s: Seq<Node>, n: Node)
    ensures
        nodes_model(s.push(n)) == nodes_model(s).push(n@),
{
    assert(nodes_model(s.push(n)) =~= nodes_model(s).push(n@));
}

/// A contact of one bucket is a contact of the whole list.
proof fn lemma_bucket_node_in_all(bs: Seq<BucketModel>, q: int, x: NodeModel)
    requires
        0 <= q < bs.len(),
        has_node(bs[q].nodes, x),
    ensures
        has_node(all_nodes(bs), x),
    decreases bs.len(),
{
    let rest = bs.drop_first();
    if q == 0 {
        let u = choose|u: int| 0 <= u < bs[0].nodes.len() && bs[0].nodes[u] == x;
        assert(all_nodes(bs)[u] == x);
    } else {
        lemma_bucket_node_in_all(rest, q - 1, x);
        let w = choose|w: int| 0 <= w < all_nodes(rest).len() && all_nodes(rest)[w] == x;
        assert(all_nodes(bs)[bs[0].nodes.len() + w] == x);
    }
}

impl KademliaTable {
    /// The contact with the given identifier, if the table holds one.
    pub fn find_contact(&self, id: &NodeID) -> (r: Option<Node>)
        requires
            wf_table(self@),
        ensures
            r matches Some(n) ==> n@.id == id@ && has_node(all_nodes(self@.buckets), n@),
            r is None ==> forall|m: NodeModel|
                has_node(all_nodes(self@.buckets), m) ==> hv(m.id) != hv(id@),
    {
        let i = self.find_bucket_index(id);
        let r = self.buckets[i].find_node(id);
        proof {
            let bs = self@.buckets;
            assert(self.buckets@[i as int]@ == bs[i as int]);
            match r {
                Some(n) => {
                    let u = choose|u: int|
                        0 <= u < bs[i as int].nodes.len() && bs[i as int].nodes[u] == n@;
                    lemma_bucket_node_in_all(bs, i as int, n@);
                },
                None => {
                    assert forall|m: NodeModel|
                        has_node(all_nodes(bs), m) implies hv(m.id) != hv(id@) by {
                        let w = choose|w: int|
                            0 <= w < all_nodes(bs).len() && all_nodes(bs)[w] == m;
                        lemma_all_nodes_in_piece(bs, all_nodes(bs), w);
                        let (q, u) = choose|q: int, u: int|
                            0 <= q < bs.len() && 0 <= u < bs[q].nodes.len()
                                && #[trigger] bs[q].nodes[u] == all_nodes(bs)[w];
                        if hv(m.id) == hv(id@) {
                            assert(wf_bucket(bs[q]));
                            assert(bs[q].from <= hv(m.id) < bs[q].to);
                            assert(forall|z: int|
                                0 <= z < bs.len() ==> (#[trigger] bs[z]).from < bs[z].to);
                            lemma_hv_bound(id@);
                            lemma_find_idx_unique(bs, hv(id@), q);
                            lemma_find_idx_unique(bs, hv(id@), i as int);
                            assert(false);
                        }
                    }
                },
            }
        }
        r
    }

    /// Every contact of the table, in bucket order.
    fn collect_nodes(&self) -> (r: Vec<Node>)
        requires
            wf_table(self@),
        ensures
            nodes_model(r@) == all_nodes(self@.buckets),
    {
        let ghost bs = self@.buckets;
        let mut out: Vec<Node> = Vec::new();
        let mut q: usize = 0;
        proof {
            assert(bs.subrange(0, 0) =~= Seq::<BucketModel>::empty());
            assert(nodes_model(out@) =~= all_nodes(bs.subrange(0, 0)));
        }
        while q < self.buckets.len()
            invariant
                q <= bs.len(),
                bs == self@.buckets,
                self@.buckets == self.buckets@.map_values(|b: Bucket| b@),
                nodes_model(out@) == all_nodes(bs.subrange(0, q as int)),
            decreases bs.len() - q,
        {
            let ghost base = all_nodes(bs.subrange(0, q as int));
            let bucket = &self.buckets[q];
            proof {
                assert(bucket@ == bs[q as int]);
            }
            let mut j: usize = 0;
            while j < bucket.size()
                invariant
                    j <= bs[q as int].nodes.len(),
                    q < bs.len(),
                    bucket@ == bs[q as int],
                    base == all_nodes(bs.subrange(0, q as int)),
                    nodes_model(out@) == base + bs[q as int].nodes.subrange(0, j as int),
                decreases bs[q as int].nodes.len() - j,
            {
                let n = bucket.node_at(j);
                out.push(n);
                proof {
                    lemma_nodes_model_push(out@.drop_last(), n);
                    assert(out@.drop_last().push(n) =~= out@);
                    assert(base + bs[q as int].nodes.subrange(0, j as int) + seq![n@] =~= base
                        + bs[q as int].nodes.subrange(0, j as int + 1));
                    assert(nodes_model(out@) =~= base + bs[q as int].nodes.subrange(
                        0,
                        j as int + 1,
                    ));
                }
                j += 1;
            }
            proof {
                assert(bs[q as int].nodes.subrange(0, bs[q as int].nodes.len() as int) =~= bs[
                    q as int
                ].nodes);
                assert(bs.subrange(0, q as int + 1) =~= bs.subrange(0, q as int) + seq![bs[
                    q as int
                ]]);
                lemma_all_nodes_concat(bs.subrange(0, q as int), seq![bs[q as int]]);
                assert(seq![bs[q as int]].drop_first() =~= Seq::<BucketModel>::empty());
                assert(all_nodes(Seq::<BucketModel>::empty()) == Seq::<NodeModel>::empty());
                assert(all_nodes(seq![bs[q as int]]) =~= bs[q as int].nodes);
                assert(nodes_model(out@) =~= all_nodes(bs.subrange(0, q as int + 1)));
            }
            q += 1;
        }
        proof {
            assert(bs.subrange(0, bs.len() as int) =~= bs);
        }
        out
    }

    /// Up to `count` contacts, in ascending XOR distance from the target.
    pub fn closest(&self, target: &NodeID, count: usize) -> (r: Vec<Node>)
        requires
            wf_table(self@),
        ensures
            closest_post(all_nodes(self@.buckets), target@, count as int, nodes_model(r@)),
    {
        broadcast use vstd::seq_lib::group_to_multiset_ensures;

        let ghost am = all_nodes(self@.buckets);
        let ghost tg = target@;
        let mut pool = self.collect_nodes();
        let mut acc: Vec<Node> = Vec::new();
        proof {
            assert(nodes_model(acc@) =~= Seq::<NodeModel>::empty());
            assert(nodes_model(acc@).to_multiset().add(nodes_model(pool@).to_multiset()) =~= am.to_multiset());
        }
        while acc.len() < count && pool.len() > 0
            invariant
                acc@.len() <= count,
                tg == target@,
                nodes_model(acc@).to_multiset().add(nodes_model(pool@).to_multiset())
                    == am.to_multiset(),
                forall|i: int, j: int|
                    0 <= i < j < acc@.len() ==> dist(tg, #[trigger] nodes_model(acc@)[i].id)
                        <= dist(tg, #[trigger] nodes_model(acc@)[j].id),
                forall|i: int, j: int|
                    0 <= i < acc@.len() && 0 <= j < pool@.len() ==> dist(
                        tg,
                        #[trigger] nodes_model(acc@)[i].id,
                    ) <= dist(tg, #[trigger] nodes_model(pool@)[j].id),
            decreases pool@.len(),
        {
            // select the closest remaining contact
            let mut mi: usize = 0;
            let mut j: usize = 1;
            while j < pool.len()
                invariant
                    mi < j <= pool@.len(),
                    pool@.len() > 0,
                    tg == target@,
                    forall|z: int|
                        0 <= z < j ==> dist(tg, #[trigger] nodes_model(pool@)[mi as int].id)
                            <= dist(tg, nodes_model(pool@)[z].id),
                decreases pool@.len() - j,
            {
                if closer_to(target, &pool[j], &pool[mi]) {
                    mi = j;
                }
                j += 1;
            }
            let ghost pm = nodes_model(pool@);
            let ghost pv = pool@;
            let ghost acm = nodes_model(acc@);
            let n = pool.remove(mi);
            acc.push(n);
            proof {
                assert(n == pv[mi as int]);
                assert(n@ == pm[mi as int]);
                lemma_nodes_model_remove(pv, mi as int);
                assert(nodes_model(pool@) == pm.remove(mi as int));
            }
            proof {
                // multiset bookkeeping: one contact moved from the pool to
                // the result
                lemma_nodes_model_push(acc@.drop_last(), n);
                assert(acc@.drop_last().push(n) =~= acc@);
                assert(nodes_model(acc@) == acm.push(n@));
                let ghost old_pool = pool@;
                assert(nodes_model(acc@).to_multiset() =~= acm.to_multiset().insert(n@));
            }
            proof {
                assert(pm.remove(mi as int).to_multiset() =~= pm.to_multiset().remove(pm[mi as int]));
                assert(nodes_model(acc@).to_multiset().add(nodes_model(pool@).to_multiset())
                    =~= am.to_multiset());
                // order bookkeeping
                assert forall|i: int, z: int|
                    0 <= i < nodes_model(acc@).len() && 0 <= z < nodes_model(pool@).len() implies
                    dist(tg, #[trigger] nodes_model(acc@)[i].id) <= dist(
                    tg,
                    #[trigger] nodes_model(pool@)[z].id,
                ) by {
                    let pz = if z < mi as int {
                        z
                    } else {
                        z + 1
                    };
                    assert(nodes_model(pool@)[z] == pm[pz]);
                    if i < nodes_model(acc@).len() - 1 {
                        assert(nodes_model(acc@)[i] == acm[i]);
                    } else {
                        assert(nodes_model(acc@)[i] == n@);
                    }
                }
            }
        }
        proof {
            let acm = nodes_model(acc@);
            let pm = nodes_model(pool@);
            assert(am.to_multiset().len() == am.len());
            assert(acm.to_multiset().len() == acm.len());
            assert(pm.to_multiset().len() == pm.len());
            assert(acm.len() + pm.len() == am.len());
            assert forall|i: int, m: NodeModel|
                0 <= i < acm.len() && #[trigger] am.to_multiset().count(m)
                    > acm.to_multiset().count(m) implies dist(tg, #[trigger] acm[i].id) <= dist(
                tg,
                m.id,
            ) by {
                assert(pm.to_multiset().count(m) > 0);
                assert(pm.contains(m));
                let z = choose|z: int| 0 <= z < pm.len() && pm[z] == m;
            }
            assert forall|m: NodeModel| #[trigger]
                acm.to_multiset().count(m) <= am.to_multiset().count(m) by {
                vstd::multiset::axiom_multiset_add(acm.to_multiset(), pm.to_multiset(), m);
            }
            assert(acm.to_multiset().subset_of(am.to_multiset()));
        }
        acc
    }
}

/// Whether `a` is strictly closer to the target than `b` in XOR distance.
fn closer_to(target: &NodeID, a: &Node, b: &Node) -> (r: bool)
    ensures
        r == (dist(target@, a@.id) < dist(target@, b@.id)),
{
    let da = xor_id(target, &a.id);
    let db = xor_id(target, &b.id);
    da.lt(&db)
}

/// Bitwise XOR of two identifiers.
fn xor_id(a: &NodeID, b: &NodeID) -> (r: NodeID)
    ensures
        r@ == xor_bytes(a@, b@),
{
    let mut val: [u8; HASH_LENGTH] = [0; HASH_LENGTH];
    let mut i: usize = 0;
    while i < HASH_LENGTH
        invariant
            i <= HASH_LENGTH,
            forall|z: int| 0 <= z < i ==> val@[z] == (a@[z] ^ b@[z]),
        decreases HASH_LENGTH - i,
    {
        val[i] = a.val[i] ^ b.val[i];
        i += 1;
    }
    proof {
        assert(val@ =~= xor_bytes(a@, b@));
    }
    crate::hash::Hash::wrap(val)
}

} // verus!
