//! A bucket: a half-open range of the identifier space holding up to K
//! contacts, kept in ascending identifier order.
use crate::hash::{hv, id_space_end, mid, mid_top, HASH_LENGTH};
use crate::node::{Node, NodeID, NodeModel};
use vstd::prelude::*;

verus! {

/// Bucket capacity K: a bucket holds at most this many contacts once splits
/// have been applied.
pub const BUCKET_MAX_CAPACITY: usize = 8;

/// The upper end of a bucket's range: an identifier, or the end of the whole
/// identifier space (one past the largest identifier, which no single
/// identifier can express).
#[derive(Clone, Copy, Debug)]
pub enum RangeEnd {
    At(NodeID),
    Top,
}

/// Numeric value of a range end.
pub open spec fn end_val(e: RangeEnd) -> nat {
    match e {
        RangeEnd::At(h) => hv(h@),
        RangeEnd::Top => id_space_end(),
    }
}

/// Spec model of a bucket: a half-open range `[from, to)` of identifier
/// values, and the contained contacts in ascending identifier order.
pub struct BucketModel {
    pub from: nat,
    pub to: nat,
    pub nodes: Seq<NodeModel>,
}

/// Bucket well-formedness: a non-empty range inside the identifier space;
/// every contact's identifier lies in the range; contacts are strictly
/// ascending by identifier (so identifiers are unique).
pub open spec fn wf_bucket(m: BucketModel) -> bool {
    &&& m.from < m.to <= id_space_end()
    &&& forall|i: int|
        0 <= i < m.nodes.len() ==> (#[trigger] m.nodes[i]).id.len() == HASH_LENGTH && m.from <= hv(
            m.nodes[i].id,
        ) < m.to
    &&& forall|i: int, j: int|
        0 <= i < j < m.nodes.len() ==> hv(#[trigger] m.nodes[i].id) < hv(#[trigger] m.nodes[j].id)
}

/// Insertion into a contact list ordered by ascending identifier value: a
/// contact with the same identifier is replaced, otherwise the new contact
/// takes its place in the order.
pub open spec fn insert_sorted(s: Seq<NodeModel>, n: NodeModel) -> Seq<NodeModel>
    decreases s.len(),
{
    if s.len() == 0 {
        seq![n]
    } else if hv(n.id) < hv(s[0].id) {
        seq![n] + s
    } else if hv(n.id) == hv(s[0].id) {
        seq![n] + s.drop_first()
    } else {
        seq![s[0]] + insert_sorted(s.drop_first(), n)
    }
}

/// Where `insert_sorted` puts the new contact, given the position `i` of the
/// first existing contact whose identifier is not below the new one.
pub proof fn lemma_insert_sorted_at(s: Seq<NodeModel>, n: NodeModel, i: int)
    requires
        0 <= i <= s.len(),
        forall|j: int| 0 <= j < i ==> hv(#[trigger] s[j].id) < hv(n.id),
        i < s.len() ==> hv(s[i].id) >= hv(n.id),
    ensures
        i < s.len() && hv(s[i].id) == hv(n.id) ==> insert_sorted(s, n) == s.subrange(0, i)
            + seq![n] + s.subrange(i + 1, s.len() as int),
        (i == s.len() || hv(s[i].id) > hv(n.id)) ==> insert_sorted(s, n) == s.subrange(0, i)
            + seq![n] + s.subrange(i, s.len() as int),
    decreases i,
{
    if i == 0 {
        if s.len() == 0 {
            assert(insert_sorted(s, n) =~= s.subrange(0, 0) + seq![n] + s.subrange(0, 0));
        } else if hv(s[0].id) == hv(n.id) {
            assert(seq![n] + s.drop_first() =~= s.subrange(0, 0) + seq![n] + s.subrange(
                1,
                s.len() as int,
            ));
        } else {
            assert(seq![n] + s =~= s.subrange(0, 0) + seq![n] + s.subrange(0, s.len() as int));
        }
    } else {
        let t = s.drop_first();
        assert(forall|j: int| 0 <= j < i - 1 ==> hv(#[trigger] t[j].id) < hv(n.id));
        lemma_insert_sorted_at(t, n, i - 1);
        if i < s.len() && hv(s[i].id) == hv(n.id) {
            assert(seq![s[0]] + (t.subrange(0, i - 1) + seq![n] + t.subrange(i, t.len() as int))
                =~= s.subrange(0, i) + seq![n] + s.subrange(i + 1, s.len() as int));
        } else {
            assert(seq![s[0]] + (t.subrange(0, i - 1) + seq![n] + t.subrange(i - 1, t.len() as int))
                =~= s.subrange(0, i) + seq![n] + s.subrange(i, s.len() as int));
        }
    }
}

/// A strictly ascending contact list within `[from, to)` cannot hold more
/// contacts than the range has values.
pub proof fn lemma_sorted_range_count(s: Seq<NodeModel>, from: nat, to: nat)
    requires
        from <= to,
        forall|i: int| 0 <= i < s.len() ==> from <= hv(#[trigger] s[i].id) < to,
        forall|i: int, j: int|
            0 <= i < j < s.len() ==> hv(#[trigger] s[i].id) < hv(#[trigger] s[j].id),
    ensures
        s.len() <= to - from,
    decreases s.len(),
{
    if s.len() > 0 {
        let t = s.drop_first();
        assert(forall|i: int|
            0 <= i < t.len() ==> hv(s[0].id) + 1 <= hv(#[trigger] t[i].id) < to);
        lemma_sorted_range_count(t, hv(s[0].id) + 1, to);
    }
}

/// holds nodes whose id value lies in the range `[range_from, range_to)`
pub struct Bucket {
    range_from: NodeID,
    range_to: RangeEnd,
    nodes: Vec<Node>,
}

impl View for Bucket {
    type V = BucketModel;

    closed spec fn view(&self) -> BucketModel {
        BucketModel {
            from: hv(self.range_from@),
            to: end_val(self.range_to),
            nodes: self.nodes@.map_values(|n: Node| n@),
        }
    }
}

impl Bucket {
    /// An empty bucket covering `[range_from, range_to)`.
    pub fn new(range_from: NodeID, range_to: RangeEnd) -> (r: Bucket)
        requires
            hv(range_from@) < end_val(range_to) <= id_space_end(),
        ensures
            r@ == (BucketModel {
                from: hv(range_from@),
                to: end_val(range_to),
                nodes: Seq::<NodeModel>::empty(),
            }),
            wf_bucket(r@),
    {
        let r = Bucket { range_from, range_to, nodes: Vec::new() };
        proof {
            assert(r@.nodes =~= Seq::<NodeModel>::empty());
        }
        r
    }

    /// The lower end of the bucket's range.
    pub fn range_from(&self) -> (r: NodeID)
        ensures
            hv(r@) == self@.from,
    {
        self.range_from
    }

    /// The upper end of the bucket's range.
    pub fn range_to(&self) -> (r: RangeEnd)
        ensures
            end_val(r) == self@.to,
    {
        self.range_to
    }

    /// How many contacts the bucket holds.
    pub fn size(&self) -> (r: usize)
        ensures
            r == self@.nodes.len(),
    {
        self.nodes.len()
    }

    /// The contact at the given position, in ascending identifier order.
    pub fn node_at(&self, i: usize) -> (r: Node)
        requires
            i < self@.nodes.len(),
        ensures
            r@ == self@.nodes[i as int],
    {
        self.nodes[i]
    }

    /// Whether the identifier lies in the bucket's range.
    pub fn node_in_range(&self, id: &NodeID) -> (r: bool)
        ensures
            r == (self@.from <= hv(id@) < self@.to),
    {
        let lower = self.range_from.le(id);
        let upper = match &self.range_to {
            RangeEnd::At(h) => id.lt(h),
            RangeEnd::Top => {
                proof {
                    crate::hash::lemma_hv_bound(id@);
                }
                true
            },
        };
        lower && upper
    }

    /// Insert a contact, or replace the contact that has the same identifier.
    pub fn insert(&mut self, node: Node)
        requires
            wf_bucket(old(self)@),
            old(self)@.from <= hv(node@.id) < old(self)@.to,
            node@.id.len() == HASH_LENGTH,
        ensures
            final(self)@.from == old(self)@.from,
            final(self)@.to == old(self)@.to,
            final(self)@.nodes == insert_sorted(old(self)@.nodes, node@),
            wf_bucket(final(self)@),
            old(self)@.nodes.len() <= final(self)@.nodes.len() <= old(self)@.nodes.len() + 1,
    {
        let ghost orig = self@.nodes;
        let mut i: usize = 0;
        while i < self.nodes.len() && self.nodes[i].id.lt(&node.id)
            invariant
                i <= self.nodes.len(),
                self@.nodes == orig,
                orig == self.nodes@.map_values(|n: Node| n@),
                forall|j: int| 0 <= j < i ==> hv(#[trigger] orig[j].id) < hv(node@.id),
            decreases self.nodes.len() - i,
        {
            assert(orig[i as int] == self.nodes@[i as int]@);
            i += 1;
        }
        proof {
            assert(i < orig.len() ==> orig[i as int] == self.nodes@[i as int]@);
            lemma_insert_sorted_at(orig, node@, i as int);
        }
        if i < self.nodes.len() && !node.id.lt(&self.nodes[i].id) {
            // equal identifier values: replace
            proof {
                crate::hash::lemma_hv_injective(self.nodes@[i as int].id@, node.id@);
            }
            self.nodes[i] = node;
            proof {
                assert(self@.nodes =~= orig.subrange(0, i as int) + seq![node@] + orig.subrange(
                    i as int + 1,
                    orig.len() as int,
                ));
            }
        } else {
            self.nodes.insert(i, node);
            proof {
                assert(self@.nodes =~= orig.subrange(0, i as int) + seq![node@] + orig.subrange(
                    i as int,
                    orig.len() as int,
                ));
            }
        }
        proof {
            lemma_wf_after_insert(orig, node@, i as int, self@);
        }
    }

    /// Split an over-full bucket at the midpoint of its range. This bucket
    /// keeps the lower half; the returned bucket covers the upper half and
    /// takes every contact whose identifier is at or above the midpoint.
    /// Together the two contact lists are exactly the old one.
    pub fn splite(&mut self) -> (r: Bucket)
        requires
            wf_bucket(old(self)@),
            old(self)@.nodes.len() > BUCKET_MAX_CAPACITY,
        ensures
            wf_bucket(final(self)@),
            wf_bucket(r@),
            final(self)@.from == old(self)@.from,
            final(self)@.to == r@.from,
            r@.to == old(self)@.to,
            r@.from == (old(self)@.from + old(self)@.to) / 2,
            final(self)@.nodes + r@.nodes == old(self)@.nodes,
            forall|i: int|
                0 <= i < final(self)@.nodes.len() ==> hv(#[trigger] final(self)@.nodes[i].id)
                    < r@.from,
            forall|i: int| 0 <= i < r@.nodes.len() ==> hv(#[trigger] r@.nodes[i].id) >= r@.from,
    {
        proof {
            lemma_sorted_range_count(self@.nodes, self@.from, self@.to);
        }
        let m_hash = match &self.range_to {
            RangeEnd::At(h) => mid(&self.range_from, h),
            RangeEnd::Top => mid_top(&self.range_from),
        };
        let ghost m = hv(m_hash@);
        let ghost orig = self@.nodes;
        let mut p: usize = 0;
        while p < self.nodes.len() && self.nodes[p].id.lt(&m_hash)
            invariant
                p <= self.nodes.len(),
                self@.nodes == orig,
                orig == self.nodes@.map_values(|n: Node| n@),
                m == hv(m_hash@),
                forall|j: int| 0 <= j < p ==> hv(#[trigger] orig[j].id) < m,
            decreases self.nodes.len() - p,
        {
            assert(orig[p as int] == self.nodes@[p as int]@);
            p += 1;
        }
        proof {
            assert(p < orig.len() ==> orig[p as int] == self.nodes@[p as int]@);
        }
        let right_nodes = self.nodes.split_off(p);
        let b = Bucket { range_from: m_hash, range_to: self.range_to, nodes: right_nodes };
        self.range_to = RangeEnd::At(m_hash);
        proof {
            assert(self@.nodes =~= orig.subrange(0, p as int));
            assert(b@.nodes =~= orig.subrange(p as int, orig.len() as int));
            assert(self@.nodes + b@.nodes =~= orig);
            // contacts at or after p are at or above the midpoint
            assert forall|i: int| 0 <= i < b@.nodes.len() implies hv(
                #[trigger] b@.nodes[i].id,
            ) >= m by {
                assert(b@.nodes[i] == orig[p + i]);
                if i > 0 {
                    assert(hv(orig[p as int].id) < hv(orig[p + i].id));
                }
            }
        }
        b
    }

    /// Split when over-full: returns the midpoint and the new upper bucket,
    /// or nothing when the bucket is within capacity.
    pub fn try_splite(&mut self) -> (r: Option<(NodeID, Bucket)>)
        requires
            wf_bucket(old(self)@),
        ensures
            old(self)@.nodes.len() <= BUCKET_MAX_CAPACITY ==> r is None && final(self)@ == old(
                self,
            )@,
            old(self)@.nodes.len() > BUCKET_MAX_CAPACITY ==> (r matches Some((m, b)) && {
                &&& hv(m@) == (old(self)@.from + old(self)@.to) / 2
                &&& wf_bucket(final(self)@)
                &&& wf_bucket(b@)
                &&& final(self)@.from == old(self)@.from
                &&& final(self)@.to == hv(m@)
                &&& b@.from == hv(m@)
                &&& b@.to == old(self)@.to
                &&& final(self)@.nodes + b@.nodes == old(self)@.nodes
            }),
    {
        if self.size() > BUCKET_MAX_CAPACITY {
            let b = self.splite();
            let m = b.range_from();
            proof {
                crate::hash::lemma_hv_injective(m@, m@);
            }
            Some((m, b))
        } else {
            None
        }
    }

    /// The contact with the given identifier, if the bucket holds one.
    pub fn find_node(&self, id: &NodeID) -> (r: Option<Node>)
        requires
            wf_bucket(self@),
        ensures
            r matches Some(n) ==> n@.id == id@ && self@.nodes.contains(n@),
            r is None ==> forall|i: int|
                0 <= i < self@.nodes.len() ==> hv(#[trigger] self@.nodes[i].id) != hv(id@),
    {
        let mut i: usize = 0;
        while i < self.nodes.len()
            invariant
                i <= self@.nodes.len(),
                self@.nodes == self.nodes@.map_values(|n: Node| n@),
                forall|j: int| 0 <= j < i ==> hv(#[trigger] self@.nodes[j].id) != hv(id@),
            decreases self.nodes.len() - i,
        {
            assert(self@.nodes[i as int] == self.nodes@[i as int]@);
            if matches!(self.nodes[i].id.cmp(id), core::cmp::Ordering::Equal) {
                return Some(self.nodes[i]);
            }
            proof {
                if hv(self@.nodes[i as int].id) == hv(id@) {
                    crate::hash::lemma_hv_injective(self@.nodes[i as int].id, id@);
                }
            }
            i += 1;
        }
        None
    }
}

/// Inserting a contact whose identifier lies in the range keeps the bucket
/// well-formed, given the position form of `insert_sorted`.
proof fn lemma_wf_after_insert(orig: Seq<NodeModel>, n: NodeModel, i: int, m: BucketModel)
    requires
        0 <= i <= orig.len(),
        forall|j: int| 0 <= j < i ==> hv(#[trigger] orig[j].id) < hv(n.id),
        m.from < m.to <= id_space_end(),
        forall|j: int|
            0 <= j < orig.len() ==> (#[trigger] orig[j]).id.len() == HASH_LENGTH && m.from <= hv(
                orig[j].id,
            ) < m.to,
        forall|j: int, k: int|
            0 <= j < k < orig.len() ==> hv(#[trigger] orig[j].id) < hv(#[trigger] orig[k].id),
        n.id.len() == HASH_LENGTH,
        m.from <= hv(n.id) < m.to,
        m.nodes == orig.subrange(0, i) + seq![n] + orig.subrange(i, orig.len() as int) || (i
            < orig.len() && hv(orig[i].id) == hv(n.id) && m.nodes == orig.subrange(0, i) + seq![n]
            + orig.subrange(i + 1, orig.len() as int)),
        m.nodes == orig.subrange(0, i) + seq![n] + orig.subrange(i, orig.len() as int) ==> (i
            == orig.len() || hv(orig[i].id) > hv(n.id)),
    ensures
        wf_bucket(m),
{
    assert forall|j: int|
        0 <= j < m.nodes.len() implies (#[trigger] m.nodes[j]).id.len() == HASH_LENGTH && m.from
        <= hv(m.nodes[j].id) < m.to by {
        if j < i {
            assert(m.nodes[j] == orig[j]);
        } else if j == i {
            assert(m.nodes[j] == n);
        }
    }
    assert forall|j: int, k: int|
        0 <= j < k < m.nodes.len() implies hv(#[trigger] m.nodes[j].id) < hv(
        #[trigger] m.nodes[k].id,
    ) by {
        if m.nodes == orig.subrange(0, i) + seq![n] + orig.subrange(i + 1, orig.len() as int) && i
            < orig.len() && hv(orig[i].id) == hv(n.id) {
            // replacement: positions shift only at i
            if j < i {
                assert(m.nodes[j] == orig[j]);
            } else if j == i {
                assert(m.nodes[j] == n);
            } else {
                assert(m.nodes[j] == orig[j]);
            }
            if k < i {
                assert(m.nodes[k] == orig[k]);
            } else if k == i {
                assert(m.nodes[k] == n);
            } else {
                assert(m.nodes[k] == orig[k]);
            }
        } else {
            if j < i {
                assert(m.nodes[j] == orig[j]);
            } else if j == i {
                assert(m.nodes[j] == n);
            } else {
                assert(m.nodes[j] == orig[j - 1]);
            }
            if k < i {
                assert(m.nodes[k] == orig[k]);
            } else if k == i {
                assert(m.nodes[k] == n);
            } else {
                assert(m.nodes[k] == orig[k - 1]);
            }
        }
    }
}

} // verus!
