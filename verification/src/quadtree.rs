//! The spatial index: a recursive, adaptively subdivided quadtree over
//! axis-aligned bounding boxes, with insertion, identity-based removal and
//! region-overlap queries.

use crate::geometry::Aabb;
use crate::geometry::Point;
use crate::geometry::lemma_contained_intersects;
use crate::geometry::lemma_quadrant_extent;
use crate::geometry::lemma_quadrants_wf;
use std::sync::Arc;
use vstd::multiset::Multiset;
use vstd::prelude::*;

verus! {

broadcast use
    vstd::multiset::group_multiset_axioms,
    vstd::multiset::group_multiset_properties,
    vstd::seq_lib::group_to_multiset_ensures,
;

/// The capability an indexed item must expose: its current bounding box,
/// and a caller-chosen key that stands for the item's identity.  Two
/// entries with equal boxes but different keys are distinct; removal goes
/// by key, never by the box or any other contents.
pub trait QuadTreeData {
    /// The item's bounding box, as a specification-level value.
    spec fn spec_aabb(&self) -> Aabb;

    /// The item's identity key, as a specification-level value.
    spec fn spec_key(&self) -> u64;

    /// Produce the item's current bounding box.
    fn aabb_2d(&self) -> (r: Aabb)
        ensures
            r == self.spec_aabb(),
    ;

    /// Produce the item's identity key.
    fn key(&self) -> (r: u64)
        ensures
            r == self.spec_key(),
    ;
}

/// A ready-made indexable item: a fixed bounding box tagged with an
/// identity key.
#[derive(Clone, Copy, PartialEq, Eq, Structural, Debug)]
pub struct KeyedAabb {
    /// The identity key; the caller keeps keys distinct between items.
    pub key: u64,
    /// The item's bounding box.
    pub aabb: Aabb,
}

impl QuadTreeData for KeyedAabb {
    open spec fn spec_aabb(&self) -> Aabb {
        self.aabb
    }

    open spec fn spec_key(&self) -> u64 {
        self.key
    }

    fn aabb_2d(&self) -> (r: Aabb) {
        self.aabb
    }

    fn key(&self) -> (r: u64) {
        self.key
    }
}

/// The default subdivision threshold: a node subdivides only while the
/// squared length of its boundary's half-size vector exceeds this, so
/// small regions stay flat and recursion depth is bounded.
pub const SUBDIVISION_THRESHOLD: u64 = 6;

/// The four child quadrants of a subdivided node, in quadrant order.
struct Quadrants<T> {
    left_top: QuadNode<T>,
    right_top: QuadNode<T>,
    right_bottom: QuadNode<T>,
    left_bottom: QuadNode<T>,
}

/// A node of the quadtree.  It owns a fixed rectangular boundary, an
/// optional set of four child quadrants (absent until the node subdivides,
/// present forever after), and the items stored at this node because no
/// single child quadrant fully contains them.
pub struct QuadNode<T> {
    boundary: Aabb,
    threshold: u64,
    children: Option<Box<Quadrants<T>>>,
    data: Vec<Arc<T>>,
}

/// The overlap test against a fixed region, as a predicate on items.
pub open spec fn overlaps_region<T: QuadTreeData>(region: Aabb) -> spec_fn(T) -> bool {
    |x: T| x.spec_aabb().spec_intersects(region)
}

/// The values a sequence of shared handles refers to, as a multiset.
spec fn arcs_ms<T>(s: Seq<Arc<T>>) -> Multiset<T> {
    s.map_values(|a: Arc<T>| *a).to_multiset()
}

/// Appending a handle appends its value to the multiset of referred values.
proof fn lemma_arcs_ms_push<T>(s: Seq<Arc<T>>, e: Arc<T>)
    ensures
        arcs_ms(s.push(e)) == arcs_ms(s).insert(*e),
{
    assert(s.push(e).map_values(|a: Arc<T>| *a) =~= s.map_values(|a: Arc<T>| *a).push(*e));
}

/// Relies on std's `Arc::clone`: the returned handle shares the allocation
/// of `a`, so it refers to the same value.
#[verifier::external_body]
fn arc_clone<T>(a: &Arc<T>) -> (r: Arc<T>)
    ensures
        r == *a,
{
    Arc::clone(a)
}

impl<T: QuadTreeData> QuadNode<T> {
    /// The node's boundary.
    pub closed spec fn spec_boundary(self) -> Aabb {
        self.boundary
    }

    /// The node's subdivision threshold.
    pub closed spec fn spec_threshold(self) -> u64 {
        self.threshold
    }

    /// Whether the node has subdivided.
    pub closed spec fn is_subdivided(self) -> bool {
        self.children is Some
    }

    /// Child `i` of a subdivided node, in quadrant order.
    pub closed spec fn spec_child(self, i: int) -> QuadNode<T>
        recommends
            self.is_subdivided(),
            0 <= i < 4,
    {
        let q = self.children->Some_0;
        if i == 0 {
            q.left_top
        } else if i == 1 {
            q.right_top
        } else if i == 2 {
            q.right_bottom
        } else {
            q.left_bottom
        }
    }

    /// The values held at this node itself, in list order.
    pub closed spec fn own_items(self) -> Seq<T> {
        self.data@.map_values(|a: Arc<T>| *a)
    }

    /// Every value held in the subtree rooted at this node, as a multiset:
    /// each stored handle contributes one occurrence.
    pub closed spec fn items(self) -> Multiset<T>
        decreases self,
    {
        match self.children {
            None => self.own_items().to_multiset(),
            Some(q) => self.own_items().to_multiset().add(q.left_top.items()).add(
                q.right_top.items(),
            ).add(q.right_bottom.items()).add(q.left_bottom.items()),
        }
    }

    /// Well-formedness of the subtree rooted at this node:
    /// - the boundary is a well-formed box, fixed at construction;
    /// - a subdivided node split only while its squared half-size exceeded
    ///   the threshold, its children's boundaries are exactly the four
    ///   quadrants of its own, and they share its threshold;
    /// - an item kept at a subdivided node fits in no single quadrant;
    /// - an item in a child's subtree fits that child's quadrant, and that
    ///   quadrant is the first one to contain it.
    pub closed spec fn inv(self) -> bool
        decreases self,
    {
        &&& self.boundary.wf()
        &&& match self.children {
            None => true,
            Some(q) => {
                &&& self.boundary.spec_half_sq() > self.threshold
                &&& q.left_top.boundary == self.boundary.quadrant(0)
                &&& q.right_top.boundary == self.boundary.quadrant(1)
                &&& q.right_bottom.boundary == self.boundary.quadrant(2)
                &&& q.left_bottom.boundary == self.boundary.quadrant(3)
                &&& q.left_top.threshold == self.threshold
                &&& q.right_top.threshold == self.threshold
                &&& q.right_bottom.threshold == self.threshold
                &&& q.left_bottom.threshold == self.threshold
                &&& q.left_top.inv()
                &&& q.right_top.inv()
                &&& q.right_bottom.inv()
                &&& q.left_bottom.inv()
                &&& forall|j: int|
                    0 <= j < self.data@.len() ==> self.boundary.quad_target(
                        (*#[trigger] self.data@[j]).spec_aabb(),
                    ) is None
                &&& forall|x: T|
                    q.left_top.items().count(x) > 0 ==> self.boundary.quad_target(
                        x.spec_aabb(),
                    ) == Some(0int)
                &&& forall|x: T|
                    q.right_top.items().count(x) > 0 ==> self.boundary.quad_target(
                        x.spec_aabb(),
                    ) == Some(1int)
                &&& forall|x: T|
                    q.right_bottom.items().count(x) > 0 ==> self.boundary.quad_target(
                        x.spec_aabb(),
                    ) == Some(2int)
                &&& forall|x: T|
                    q.left_bottom.items().count(x) > 0 ==> self.boundary.quad_target(
                        x.spec_aabb(),
                    ) == Some(3int)
            },
        }
    }

    /// Creates a leaf node with the given fixed boundary and the default
    /// subdivision threshold.
    pub fn new(boundary: Aabb) -> (node: Self)
        requires
            boundary.wf(),
        ensures
            node.inv(),
            node.spec_boundary() == boundary,
            node.spec_threshold() == SUBDIVISION_THRESHOLD,
            !node.is_subdivided(),
            node.items() == Multiset::<T>::empty(),
            node.own_items() == Seq::<T>::empty(),
    {
        Self::with_threshold(boundary, SUBDIVISION_THRESHOLD)
    }

    /// Creates a leaf node with the given fixed boundary and subdivision
    /// threshold (the squared half-size length above which an occupied
    /// node splits).
    pub fn with_threshold(boundary: Aabb, threshold: u64) -> (node: Self)
        requires
            boundary.wf(),
        ensures
            node.inv(),
            node.spec_boundary() == boundary,
            node.spec_threshold() == threshold,
            !node.is_subdivided(),
            node.items() == Multiset::<T>::empty(),
            node.own_items() == Seq::<T>::empty(),
    {
        let node = QuadNode { boundary, threshold, children: None, data: Vec::new() };
        proof {
            assert(node.own_items() =~= Seq::<T>::empty());
            assert(node.items() =~= Multiset::<T>::empty());
        }
        node
    }

    /// The one-time split: creates the four empty child quadrants, then
    /// moves every item of this node that fits inside a single quadrant
    /// into the first such quadrant; items that straddle quadrant edges
    /// stay here.
    fn subdivide(&mut self)
        requires
            old(self).inv(),
            !old(self).is_subdivided(),
            old(self).boundary.spec_half_sq() > old(self).threshold,
        ensures
            final(self).inv(),
            final(self).boundary == old(self).boundary,
            final(self).threshold == old(self).threshold,
            final(self).is_subdivided(),
            final(self).items() == old(self).items(),
    {
        let ghost b = self.boundary;
        proof {
            lemma_quadrants_wf(b);
        }
        let c = self.boundary.center();
        let q0 = Aabb {
            min: Point { x: self.boundary.min.x, y: c.y },
            max: Point { x: c.x, y: self.boundary.max.y },
        };
        let q1 = Aabb { min: c, max: self.boundary.max };
        let q2 = Aabb {
            min: Point { x: c.x, y: self.boundary.min.y },
            max: Point { x: self.boundary.max.x, y: c.y },
        };
        let q3 = Aabb { min: self.boundary.min, max: c };
        proof {
            assert(q0 == b.quadrant(0));
            assert(q1 == b.quadrant(1));
            assert(q2 == b.quadrant(2));
            assert(q3 == b.quadrant(3));
        }
        let mut q: Box<Quadrants<T>> = Box::new(
            Quadrants {
                left_top: QuadNode { boundary: q0, threshold: self.threshold, children: None, data: Vec::new() },
                right_top: QuadNode { boundary: q1, threshold: self.threshold, children: None, data: Vec::new() },
                right_bottom: QuadNode { boundary: q2, threshold: self.threshold, children: None, data: Vec::new() },
                left_bottom: QuadNode { boundary: q3, threshold: self.threshold, children: None, data: Vec::new() },
            },
        );
        let mut keep: Vec<Arc<T>> = Vec::new();
        let mut i: usize = 0;
        while i < self.data.len()
            invariant
                i <= self.data@.len(),
                *self == *old(self),
                b == self.boundary,
                q.left_top.boundary == b.quadrant(0),
                q.right_top.boundary == b.quadrant(1),
                q.right_bottom.boundary == b.quadrant(2),
                q.left_bottom.boundary == b.quadrant(3),
                q.left_top.threshold == self.threshold,
                q.right_top.threshold == self.threshold,
                q.right_bottom.threshold == self.threshold,
                q.left_bottom.threshold == self.threshold,
                q.left_top.children is None,
                q.right_top.children is None,
                q.right_bottom.children is None,
                q.left_bottom.children is None,
                forall|j: int|
                    0 <= j < q.left_top.data@.len() ==> b.quad_target(
                        (*#[trigger] q.left_top.data@[j]).spec_aabb(),
                    ) == Some(0int),
                forall|j: int|
                    0 <= j < q.right_top.data@.len() ==> b.quad_target(
                        (*#[trigger] q.right_top.data@[j]).spec_aabb(),
                    ) == Some(1int),
                forall|j: int|
                    0 <= j < q.right_bottom.data@.len() ==> b.quad_target(
                        (*#[trigger] q.right_bottom.data@[j]).spec_aabb(),
                    ) == Some(2int),
                forall|j: int|
                    0 <= j < q.left_bottom.data@.len() ==> b.quad_target(
                        (*#[trigger] q.left_bottom.data@[j]).spec_aabb(),
                    ) == Some(3int),
                forall|j: int|
                    0 <= j < keep@.len() ==> b.quad_target(
                        (*#[trigger] keep@[j]).spec_aabb(),
                    ) is None,
                arcs_ms(keep@).add(arcs_ms(q.left_top.data@)).add(arcs_ms(q.right_top.data@)).add(
                    arcs_ms(q.right_bottom.data@),
                ).add(arcs_ms(q.left_bottom.data@)) == arcs_ms(self.data@.take(i as int)),
            decreases self.data@.len() - i,
        {
            let e = arc_clone(&self.data[i]);
            let ea = (*e).aabb_2d();
            let ghost prev = arcs_ms(keep@).add(arcs_ms(q.left_top.data@)).add(
                arcs_ms(q.right_top.data@),
            ).add(arcs_ms(q.right_bottom.data@)).add(arcs_ms(q.left_bottom.data@));
            if q.left_top.boundary.contains(&ea) {
                proof {
                    lemma_arcs_ms_push(q.left_top.data@, e);
                }
                q.left_top.data.push(e);
            } else if q.right_top.boundary.contains(&ea) {
                proof {
                    lemma_arcs_ms_push(q.right_top.data@, e);
                }
                q.right_top.data.push(e);
            } else if q.right_bottom.boundary.contains(&ea) {
                proof {
                    lemma_arcs_ms_push(q.right_bottom.data@, e);
                }
                q.right_bottom.data.push(e);
            } else if q.left_bottom.boundary.contains(&ea) {
                proof {
                    lemma_arcs_ms_push(q.left_bottom.data@, e);
                }
                q.left_bottom.data.push(e);
            } else {
                proof {
                    lemma_arcs_ms_push(keep@, e);
                }
                keep.push(e);
            }
            proof {
                let s = self.data@;
                assert(s.take(i + 1).map_values(|a: Arc<T>| *a) =~= s.take(i as int).map_values(
                    |a: Arc<T>| *a,
                ).push(*e));
                assert(arcs_ms(s.take(i + 1)) == arcs_ms(s.take(i as int)).insert(*e));
                assert(arcs_ms(keep@).add(arcs_ms(q.left_top.data@)).add(
                    arcs_ms(q.right_top.data@),
                ).add(arcs_ms(q.right_bottom.data@)).add(arcs_ms(q.left_bottom.data@)) =~= prev.insert(
                    *e,
                ));
            }
            i = i + 1;
        }
        proof {
            assert(self.data@.take(self.data@.len() as int) =~= self.data@);
        }
        self.data = keep;
        self.children = Some(q);
        proof {
            assert forall|x: T| self.children->Some_0.left_top.items().count(x) > 0 implies b.quad_target(
                x.spec_aabb(),
            ) == Some(0int) by {
                let ch = self.children->Some_0.left_top;
                assert(ch.items() == ch.own_items().to_multiset());
                assert(ch.own_items().contains(x));
                let j = choose|j: int| 0 <= j < ch.own_items().len() && ch.own_items()[j] == x;
                assert(ch.own_items()[j] == *ch.data@[j]);
            }
            assert forall|x: T| self.children->Some_0.right_top.items().count(x) > 0 implies b.quad_target(
                x.spec_aabb(),
            ) == Some(1int) by {
                let ch = self.children->Some_0.right_top;
                assert(ch.items() == ch.own_items().to_multiset());
                assert(ch.own_items().contains(x));
                let j = choose|j: int| 0 <= j < ch.own_items().len() && ch.own_items()[j] == x;
                assert(ch.own_items()[j] == *ch.data@[j]);
            }
            assert forall|x: T| self.children->Some_0.right_bottom.items().count(x) > 0 implies b.quad_target(
                x.spec_aabb(),
            ) == Some(2int) by {
                let ch = self.children->Some_0.right_bottom;
                assert(ch.items() == ch.own_items().to_multiset());
                assert(ch.own_items().contains(x));
                let j = choose|j: int| 0 <= j < ch.own_items().len() && ch.own_items()[j] == x;
                assert(ch.own_items()[j] == *ch.data@[j]);
            }
            assert forall|x: T| self.children->Some_0.left_bottom.items().count(x) > 0 implies b.quad_target(
                x.spec_aabb(),
            ) == Some(3int) by {
                let ch = self.children->Some_0.left_bottom;
                assert(ch.items() == ch.own_items().to_multiset());
                assert(ch.own_items().contains(x));
                let j = choose|j: int| 0 <= j < ch.own_items().len() && ch.own_items()[j] == x;
                assert(ch.own_items()[j] == *ch.data@[j]);
            }
            let qq = self.children->Some_0;
            assert(qq.left_top.inv());
            assert(qq.right_top.inv());
            assert(qq.right_bottom.inv());
            assert(qq.left_bottom.inv());
            assert(qq.left_top.items() == arcs_ms(qq.left_top.data@));
            assert(qq.right_top.items() == arcs_ms(qq.right_top.data@));
            assert(qq.right_bottom.items() == arcs_ms(qq.right_bottom.data@));
            assert(qq.left_bottom.items() == arcs_ms(qq.left_bottom.data@));
            assert(old(self).items() == arcs_ms(old(self).data@));
            assert(final(self).items() =~= old(self).items());
        }
    }

    /// Inserts `data` into the subtree rooted at this node.  The node
    /// first subdivides if it is still undivided, already holds two or
    /// more items, and its squared half-size exceeds the threshold; the
    /// item then goes into the first child quadrant that fully contains
    /// its box, or stays at this node when no single quadrant does.
    /// Insertion always succeeds; an item whose box lies outside the
    /// boundary is accepted like any other.
    pub fn insert(&mut self, data: Arc<T>)
        requires
            old(self).inv(),
        ensures
            final(self).inv(),
            final(self).spec_boundary() == old(self).spec_boundary(),
            final(self).spec_threshold() == old(self).spec_threshold(),
            final(self).items() == old(self).items().insert(*data),
            (!old(self).is_subdivided() && (old(self).own_items().len() < 2
                || old(self).spec_boundary().spec_half_sq() <= old(self).spec_threshold()))
                ==> (!final(self).is_subdivided()
                && final(self).own_items() == old(self).own_items().push(*data)),
            old(self).is_subdivided() ==> final(self).is_subdivided(),
            (old(self).is_subdivided() && old(self).spec_boundary().quad_target(
                (*data).spec_aabb(),
            ) is None) ==> final(self).own_items() == old(self).own_items().push(*data),
            (old(self).is_subdivided() && old(self).spec_boundary().quad_target(
                (*data).spec_aabb(),
            ) is Some) ==> final(self).own_items() == old(self).own_items(),
            forall|j: int|
                (0 <= j < 4 && old(self).is_subdivided() && old(self).spec_boundary().quad_target(
                    (*data).spec_aabb(),
                ) != Some(j)) ==> #[trigger] final(self).spec_child(j) == old(self).spec_child(j),
        decreases old(self).spec_boundary().extent(),
    {
        if self.children.is_none() && self.data.len() > 1 {
            let hs = self.boundary.half_sq();
            if hs > self.threshold {
                self.subdivide();
            }
        }
        let ghost mid = *self;
        proof {
            if mid.children is Some {
                lemma_quadrant_extent(mid.boundary);
            }
        }
        let a = (*data).aabb_2d();
        match &mut self.children {
            Some(q) => {
                if q.left_top.boundary.contains(&a) {
                    q.left_top.insert(data);
                } else if q.right_top.boundary.contains(&a) {
                    q.right_top.insert(data);
                } else if q.right_bottom.boundary.contains(&a) {
                    q.right_bottom.insert(data);
                } else if q.left_bottom.boundary.contains(&a) {
                    q.left_bottom.insert(data);
                } else {
                    self.data.push(data);
                }
            },
            None => {
                self.data.push(data);
            },
        }
        proof {
            let x = *data;
            let ghost fin = *self;
            if mid.children is None {
                lemma_arcs_ms_push(mid.data@, data);
                assert(fin.own_items() =~= mid.own_items().push(x));
                assert(fin.items() =~= mid.items().insert(x));
                assert(fin.inv());
            } else {
                let t = mid.boundary.quad_target(x.spec_aabb());
                if t is None {
                    lemma_arcs_ms_push(mid.data@, data);
                    assert(fin.own_items() =~= mid.own_items().push(x));
                    assert forall|j: int|
                        0 <= j < fin.data@.len() implies fin.boundary.quad_target(
                        (*#[trigger] fin.data@[j]).spec_aabb(),
                    ) is None by {
                        if j < mid.data@.len() {
                            assert(fin.data@[j] == mid.data@[j]);
                        } else {
                            assert(fin.data@[j] == data);
                        }
                    }
                    assert(fin.items() =~= mid.items().insert(x));
                    assert(fin.inv());
                } else {
                    assert(fin.items() =~= mid.items().insert(x));
                    assert(fin.inv());
                }
            }
            assert(fin.items() == old(self).items().insert(x));
        }
    }

    /// What a region query returns: nothing at all when the region misses
    /// this node's boundary, otherwise every item in the subtree whose
    /// box overlaps the region, one occurrence per stored entry.
    pub open spec fn spec_query(self, region: Aabb) -> Multiset<T> {
        if self.spec_boundary().spec_intersects(region) {
            self.items().filter(overlaps_region(region))
        } else {
            Multiset::<T>::empty()
        }
    }

    /// Appends this subtree's query results to `out`.
    fn query_into(&self, region: &Aabb, out: &mut Vec<Arc<T>>)
        requires
            self.inv(),
        ensures
            arcs_ms(final(out)@) == arcs_ms(old(out)@).add(self.spec_query(*region)),
        decreases self.spec_boundary().extent(),
    {
        let ghost base = out@;
        let ghost reg = *region;
        let ghost pred = overlaps_region::<T>(reg);
        if !self.boundary.intersects(region) {
            proof {
                assert(arcs_ms(out@).add(self.spec_query(reg)) =~= arcs_ms(out@));
            }
            return ;
        }
        let mut i: usize = 0;
        while i < self.data.len()
            invariant
                self.inv(),
                i <= self.data@.len(),
                reg == *region,
                pred == overlaps_region::<T>(reg),
                arcs_ms(out@) == arcs_ms(base).add(
                    arcs_ms(self.data@.take(i as int)).filter(pred),
                ),
            decreases self.data@.len() - i,
        {
            let e = &self.data[i];
            let ea = (**e).aabb_2d();
            let ghost prev = out@;
            if region.intersects(&ea) {
                out.push(arc_clone(e));
                proof {
                    lemma_arcs_ms_push(prev, self.data@[i as int]);
                }
            }
            proof {
                let s = self.data@;
                assert(s.take(i + 1).map_values(|a: Arc<T>| *a) =~= s.take(i as int).map_values(
                    |a: Arc<T>| *a,
                ).push(*s[i as int]));
                assert(arcs_ms(s.take(i + 1)) == arcs_ms(s.take(i as int)).insert(*s[i as int]));
                assert(arcs_ms(s.take(i + 1)).filter(pred) =~= if pred(*s[i as int]) {
                    arcs_ms(s.take(i as int)).filter(pred).insert(*s[i as int])
                } else {
                    arcs_ms(s.take(i as int)).filter(pred)
                });
                assert(arcs_ms(out@) =~= arcs_ms(base).add(arcs_ms(s.take(i + 1)).filter(pred)));
            }
            i = i + 1;
        }
        proof {
            assert(self.data@.take(self.data@.len() as int) =~= self.data@);
        }
        match &self.children {
            Some(q) => {
                proof {
                    lemma_quadrant_extent(self.boundary);
                }
                q.left_top.query_into(region, out);
                q.right_top.query_into(region, out);
                q.right_bottom.query_into(region, out);
                q.left_bottom.query_into(region, out);
                proof {
                    self.lemma_child_query_is_filtered(q.left_top, 0, reg);
                    self.lemma_child_query_is_filtered(q.right_top, 1, reg);
                    self.lemma_child_query_is_filtered(q.right_bottom, 2, reg);
                    self.lemma_child_query_is_filtered(q.left_bottom, 3, reg);
                    assert(self.items().filter(pred) =~= arcs_ms(self.data@).filter(pred).add(
                        q.left_top.items().filter(pred),
                    ).add(q.right_top.items().filter(pred)).add(
                        q.right_bottom.items().filter(pred),
                    ).add(q.left_bottom.items().filter(pred)));
                    assert(arcs_ms(out@) =~= arcs_ms(base).add(self.spec_query(reg)));
                }
            },
            None => {
                proof {
                    assert(self.items() == arcs_ms(self.data@));
                    assert(arcs_ms(out@) =~= arcs_ms(base).add(self.spec_query(reg)));
                }
            },
        }
    }

    /// A child's query result equals the overlap filter over the child's
    /// whole subtree: when the region misses the child's boundary, no item
    /// of the child's subtree overlaps the region either, because every
    /// such item fits inside the child's quadrant.
    proof fn lemma_child_query_is_filtered(self, child: QuadNode<T>, i: int, region: Aabb)
        requires
            self.inv(),
            self.is_subdivided(),
            0 <= i < 4,
            child == self.spec_child(i),
        ensures
            child.spec_query(region) == child.items().filter(overlaps_region(region)),
    {
        let pred = overlaps_region::<T>(region);
        if !child.spec_boundary().spec_intersects(region) {
            assert forall|x: T| child.items().count(x) > 0 implies !pred(x) by {
                assert(self.spec_boundary().quad_target(x.spec_aabb()) == Some(i));
                assert(child.spec_boundary().spec_contains(x.spec_aabb()));
                if x.spec_aabb().spec_intersects(region) {
                    lemma_contained_intersects(child.spec_boundary(), x.spec_aabb(), region);
                }
            }
            assert(child.spec_query(region) =~= child.items().filter(pred));
        }
    }

    /// Returns every item in this subtree whose box overlaps `region`:
    /// whole branches are pruned wherever a node's boundary already misses
    /// `region`, each stored entry appears at most once, and no order
    /// among the results is promised.
    pub fn query(&self, region: &Aabb) -> (results: Vec<Arc<T>>)
        requires
            self.inv(),
        ensures
            results@.map_values(|a: Arc<T>| *a).to_multiset() == self.spec_query(*region),
    {
        let mut results: Vec<Arc<T>> = Vec::new();
        proof {
            assert(arcs_ms(results@) =~= Multiset::<T>::empty());
        }
        self.query_into(region, &mut results);
        proof {
            assert(Multiset::<T>::empty().add(self.spec_query(*region)) =~= self.spec_query(
                *region,
            ));
        }
        results
    }

    /// The position of the first handle in `v` whose key is `k`, if any.
    fn find_key(v: &Vec<Arc<T>>, k: u64) -> (r: Option<usize>)
        ensures
            match r {
                Some(i) => i < v@.len() && (*v@[i as int]).spec_key() == k && forall|j: int|
                    0 <= j < i ==> (*#[trigger] v@[j]).spec_key() != k,
                None => forall|j: int| 0 <= j < v@.len() ==> (*#[trigger] v@[j]).spec_key() != k,
            },
    {
        let mut i: usize = 0;
        while i < v.len()
            invariant
                i <= v@.len(),
                forall|j: int| 0 <= j < i ==> (*#[trigger] v@[j]).spec_key() != k,
            decreases v@.len() - i,
        {
            let e = &v[i];
            if (**e).key() == k {
                return Some(i);
            }
            i = i + 1;
        }
        None
    }

    /// Removes the first entry in this subtree whose identity key equals
    /// `data`'s key: this node's own list is scanned first, then the one
    /// child quadrant that fully contains `data`'s current box.  Matching
    /// goes by key alone, never by the box or other contents.  When
    /// nothing matches the call is a silent no-op; an entry indexed under
    /// a box that has changed since insertion may not be found.
    #[verifier::rlimit(100)]
    pub fn remove(&mut self, data: &T)
        requires
            old(self).inv(),
        ensures
            final(self).inv(),
            final(self).spec_boundary() == old(self).spec_boundary(),
            final(self).spec_threshold() == old(self).spec_threshold(),
            final(self).is_subdivided() == old(self).is_subdivided(),
            final(self).items() == old(self).items() || (exists|e: T|
                e.spec_key() == data.spec_key()
                    && old(self).items() == final(self).items().insert(e)),
            (exists|e: T|
                old(self).items().count(e) > 0 && e.spec_key() == data.spec_key()
                    && e.spec_aabb() == data.spec_aabb()) ==> (exists|e: T|
                e.spec_key() == data.spec_key()
                    && old(self).items() == final(self).items().insert(e)),
            (forall|e: T| old(self).items().count(e) > 0 ==> e.spec_key() != data.spec_key())
                ==> *final(self) == *old(self),
        decreases old(self).spec_boundary().extent(),
    {
        let k = data.key();
        match Self::find_key(&self.data, k) {
            Some(i) => {
                let ghost rem_arc = self.data@[i as int];
                self.data.remove(i);
                proof {
                    let rem = *rem_arc;
                    let s = old(self).data@;
                    assert(s.remove(i as int).map_values(|a: Arc<T>| *a) =~= s.map_values(
                        |a: Arc<T>| *a,
                    ).remove(i as int));
                    assert(s.map_values(|a: Arc<T>| *a)[i as int] == rem);
                    assert(arcs_ms(s).count(rem) > 0);
                    assert(arcs_ms(self.data@) == arcs_ms(s).remove(rem));
                    assert(old(self).items() =~= self.items().insert(rem));
                    assert(final(self).inv());
                }
                return ;
            },
            None => {},
        }
        let ghost mid = *self;
        proof {
            assert(mid == *old(self));
            if mid.children is Some {
                lemma_quadrant_extent(mid.boundary);
            }
        }
        if self.children.is_some() {
            let a = data.aabb_2d();
            match &mut self.children {
                Some(q) => {
                    if q.left_top.boundary.contains(&a) {
                        q.left_top.remove(data);
                    } else if q.right_top.boundary.contains(&a) {
                        q.right_top.remove(data);
                    } else if q.right_bottom.boundary.contains(&a) {
                        q.right_bottom.remove(data);
                    } else if q.left_bottom.boundary.contains(&a) {
                        q.left_bottom.remove(data);
                    }
                },
                None => {},
            }
        }
        proof {
            let fin = *self;
            let kk = data.spec_key();
            let aa = data.spec_aabb();
            // the scan found no key match in this node's own list
            assert forall|e: T| arcs_ms(mid.data@).count(e) > 0 implies e.spec_key() != kk by {
                assert(mid.own_items().contains(e));
                let j = choose|j: int| 0 <= j < mid.own_items().len() && mid.own_items()[j] == e;
                assert(mid.own_items()[j] == *mid.data@[j]);
            }
            if mid.children is None {
                assert(fin == mid);
                assert forall|e: T| mid.items().count(e) > 0 implies e.spec_key() != kk by {
                    assert(arcs_ms(mid.data@).count(e) > 0);
                }
            } else {
                let qm = mid.children->Some_0;
                let t = mid.boundary.quad_target(aa);
                if t is None {
                    assert(fin == mid);
                    // a matching entry would sit in the child chosen by its
                    // own box, which equals `aa`; no quadrant contains `aa`
                    assert forall|e: T|
                        mid.items().count(e) > 0 && e.spec_key() == kk implies e.spec_aabb() != aa
                    by {
                        if e.spec_aabb() == aa {
                            assert(qm.left_top.items().count(e) > 0 || qm.right_top.items().count(e)
                                > 0 || qm.right_bottom.items().count(e) > 0
                                || qm.left_bottom.items().count(e) > 0);
                        }
                    }
                } else {
                    let ci = t->Some_0;
                    let cm = mid.spec_child(ci);
                    let cf = fin.spec_child(ci);
                    assert(cm.inv());
                    // every entry that survives in the child was already there
                    assert forall|x: T| cf.items().count(x) > 0 implies cm.items().count(x) > 0 by {
                        if cm.items() != cf.items() {
                            let e = choose|e: T|
                                e.spec_key() == kk && cm.items() == cf.items().insert(e);
                            assert(cm.items().count(x) == cf.items().insert(e).count(x));
                        }
                    }
                    assert(fin.inv());
                    assert(fin.data@ == mid.data@);
                    if cm.items() == cf.items() {
                        assert(fin.items() =~= mid.items());
                    } else {
                        let e = choose|e: T|
                            e.spec_key() == kk && cm.items() == cf.items().insert(e);
                        assert(mid.items() =~= fin.items().insert(e));
                    }
                    // a matching entry forces the child to have removed one
                    if exists|e: T|
                        mid.items().count(e) > 0 && e.spec_key() == kk && e.spec_aabb() == aa {
                        let e = choose|e: T|
                            mid.items().count(e) > 0 && e.spec_key() == kk && e.spec_aabb() == aa;
                        assert(cm.items().count(e) > 0);
                        let e2 = choose|e2: T|
                            e2.spec_key() == kk && cm.items() == cf.items().insert(e2);
                        assert(mid.items() =~= fin.items().insert(e2));
                    }
                    // silent no-op when no key matches anywhere
                    if forall|e: T| mid.items().count(e) > 0 ==> e.spec_key() != kk {
                        assert forall|e: T| cm.items().count(e) > 0 implies e.spec_key() != kk by {
                            assert(mid.items().count(e) > 0);
                        }
                        assert(cf == cm);
                        assert(fin == mid);
                    }
                }
            }
        }
    }

    /// The four children in quadrant order, if the node has subdivided.
    pub fn iter_children(&self) -> (r: Option<Vec<&QuadNode<T>>>)
        ensures
            r is Some <==> self.is_subdivided(),
            r is Some ==> (r->Some_0)@.len() == 4 && forall|i: int|
                0 <= i < 4 ==> *(r->Some_0)@[i] == self.spec_child(i),
    {
        match &self.children {
            Some(q) => {
                let mut v: Vec<&QuadNode<T>> = Vec::new();
                v.push(&q.left_top);
                v.push(&q.right_top);
                v.push(&q.right_bottom);
                v.push(&q.left_bottom);
                Some(v)
            },
            None => None,
        }
    }

    /// The handles stored at this node itself, in list order.
    pub fn iter_data(&self) -> (r: &Vec<Arc<T>>)
        ensures
            r@.map_values(|a: Arc<T>| *a) == self.own_items(),
    {
        &self.data
    }

    /// The left-top child quadrant, if the node has subdivided.
    pub fn left_top(&self) -> (r: Option<&QuadNode<T>>)
        ensures
            r is Some <==> self.is_subdivided(),
            r is Some ==> *r->Some_0 == self.spec_child(0),
    {
        match &self.children {
            Some(q) => Some(&q.left_top),
            None => None,
        }
    }

    /// The right-top child quadrant, if the node has subdivided.
    pub fn right_top(&self) -> (r: Option<&QuadNode<T>>)
        ensures
            r is Some <==> self.is_subdivided(),
            r is Some ==> *r->Some_0 == self.spec_child(1),
    {
        match &self.children {
            Some(q) => Some(&q.right_top),
            None => None,
        }
    }

    /// The right-bottom child quadrant, if the node has subdivided.
    pub fn right_bottom(&self) -> (r: Option<&QuadNode<T>>)
        ensures
            r is Some <==> self.is_subdivided(),
            r is Some ==> *r->Some_0 == self.spec_child(2),
    {
        match &self.children {
            Some(q) => Some(&q.right_bottom),
            None => None,
        }
    }

    /// The left-bottom child quadrant, if the node has subdivided.
    pub fn left_bottom(&self) -> (r: Option<&QuadNode<T>>)
        ensures
            r is Some <==> self.is_subdivided(),
            r is Some ==> *r->Some_0 == self.spec_child(3),
    {
        match &self.children {
            Some(q) => Some(&q.left_bottom),
            None => None,
        }
    }

    /// The node's fixed boundary.
    pub fn get_bouding_box(&self) -> (r: &Aabb)
        ensures
            *r == self.spec_boundary(),
    {
        &self.boundary
    }

    /// Containment round-trip: an indexed entry whose box lies inside the
    /// node's boundary is returned by every query whose region overlaps
    /// the entry's box, with its full number of occurrences, and by no
    /// query whose region misses it.
    pub proof fn lemma_containment_round_trip(self, x: T, region: Aabb)
        requires
            self.inv(),
            self.items().count(x) > 0,
            self.spec_boundary().spec_contains(x.spec_aabb()),
        ensures
            x.spec_aabb().spec_intersects(region) ==> self.spec_query(region).count(x)
                == self.items().count(x),
            !x.spec_aabb().spec_intersects(region) ==> self.spec_query(region).count(x) == 0,
    {
        if x.spec_aabb().spec_intersects(region) {
            lemma_contained_intersects(self.spec_boundary(), x.spec_aabb(), region);
        }
    }

    /// A removed item stays removed: once no entry in the index carries a
    /// key, no query returns an entry with that key.
    pub proof fn lemma_removed_key_not_returned(self, k: u64, region: Aabb)
        requires
            self.inv(),
            forall|e: T| self.items().count(e) > 0 ==> e.spec_key() != k,
        ensures
            forall|e: T| e.spec_key() == k ==> self.spec_query(region).count(e) == 0,
    {
        assert forall|e: T| e.spec_key() == k implies self.spec_query(region).count(e) == 0 by {
            assert(self.items().count(e) == 0);
        }
    }

    /// Removing the only entry that carried a key leaves no entry with
    /// that key behind, so later queries cannot return the removed item.
    pub proof fn lemma_removal_clears_key(before: Multiset<T>, after: Multiset<T>, e: T, k: u64)
        requires
            before == after.insert(e),
            e.spec_key() == k,
            before.count(e) == 1,
            forall|y: T| before.count(y) > 0 && y.spec_key() == k ==> y == e,
        ensures
            forall|y: T| after.count(y) > 0 ==> y.spec_key() != k,
    {
        assert forall|y: T| after.count(y) > 0 implies y.spec_key() != k by {
            assert(before.count(y) > 0);
            if y.spec_key() == k {
                assert(y == e);
                assert(before.count(e) == after.count(e) + 1);
            }
        }
    }

    /// Removal goes by identity, not by value: when a removal takes one
    /// entry out, every entry with a different key keeps its exact number
    /// of occurrences — in particular an entry with the same box but
    /// another key stays indexed.
    pub proof fn lemma_removal_is_by_identity(
        before: Multiset<T>,
        after: Multiset<T>,
        removed: T,
        other: T,
    )
        requires
            before == after.insert(removed),
            other.spec_key() != removed.spec_key(),
        ensures
            after.count(other) == before.count(other),
    {
    }

    /// Subdivision threshold: a node whose boundary's squared half-size
    /// does not exceed its threshold has no children, whatever was
    /// inserted into it.
    pub proof fn lemma_small_boundary_stays_flat(self)
        requires
            self.inv(),
            self.spec_boundary().spec_half_sq() <= self.spec_threshold(),
        ensures
            !self.is_subdivided(),
    {
    }

    /// Partition invariant: the children of a subdivided node carry the
    /// four quadrants of its boundary; together the quadrants cover every
    /// point of the boundary, and two different quadrants share at most
    /// edge points, never interior points.
    pub proof fn lemma_partition(self)
        requires
            self.inv(),
            self.is_subdivided(),
        ensures
            forall|i: int|
                0 <= i < 4 ==> (#[trigger] self.spec_child(i)).spec_boundary()
                    == self.spec_boundary().quadrant(i),
            forall|px: int, py: int|
                #![trigger self.spec_boundary().contains_point(px, py)]
                self.spec_boundary().contains_point(px, py) <==> exists|i: int|
                    0 <= i < 4 && (#[trigger] self.spec_boundary().quadrant(i)).contains_point(
                        px,
                        py,
                    ),
            forall|i: int, j: int, px: int, py: int|
                #![trigger self.spec_boundary().quadrant(i).strictly_contains_point(px, py), self.spec_boundary().quadrant(j).strictly_contains_point(px, py)]
                0 <= i < 4 && 0 <= j < 4 && i != j && self.spec_boundary().quadrant(
                    i,
                ).strictly_contains_point(px, py) ==> !self.spec_boundary().quadrant(
                    j,
                ).strictly_contains_point(px, py),
    {
        let b = self.spec_boundary();
        let c = b.spec_center();
        lemma_quadrants_wf(b);
        assert forall|px: int, py: int|
            #![trigger b.contains_point(px, py)]
            b.contains_point(px, py) implies exists|i: int|
            0 <= i < 4 && (#[trigger] b.quadrant(i)).contains_point(px, py) by {
            if px <= c.x && py >= c.y {
                assert(b.quadrant(0).contains_point(px, py));
            } else if px >= c.x && py >= c.y {
                assert(b.quadrant(1).contains_point(px, py));
            } else if px >= c.x {
                assert(b.quadrant(2).contains_point(px, py));
            } else {
                assert(b.quadrant(3).contains_point(px, py));
            }
        }
    }
}

} // verus!
