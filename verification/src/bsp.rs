//! The binary-space-partition tree.
//!
//! An arena of nodes addressed by stable keys: every node is either an
//! internal split (a plane and two children) or a leaf holding a
//! payload.  The `le` child covers the points at signed distance
//! `<= 0` from the node's plane, the `gt` child the points at distance
//! `> 0`.  A split replaces a leaf in place by an internal node and
//! appends two fresh leaves, so keys never move and children always
//! have larger keys than their parent — which is also what bounds the
//! point-location descent.

use vstd::prelude::*;
use vstd::pervasive::unreached;

use crate::geometry::{Plane, Polygon, Rat2, Vec2, dist_fits, dot_fits, le_side, rat_dot, spec_clip};

verus! {

/// A stable handle to one arena slot.
#[derive(Clone, Copy, Debug, PartialEq, Eq, Hash, Structural)]
pub struct BspKey(pub usize);

/// An internal split node: its plane and its two children.
#[derive(Clone, Debug)]
pub struct BspInode {
    pub plane: Plane,
    pub le: BspKey,
    pub gt: BspKey,
}

/// A leaf node holding a payload.
#[derive(Clone, Debug)]
pub struct BspLeaf<T>(pub T);

/// One arena node.
#[derive(Clone, Debug)]
pub enum BspNode<T> {
    Inode(BspInode),
    Leaf(BspLeaf<T>),
}

/// A binary-space-partition tree: an arena of nodes and the key of the
/// root node.
pub struct Bsp<T> {
    pub nodes: Vec<BspNode<T>>,
    pub root: BspKey,
}

/// What the arena guarantees of the node at slot `i`: an internal
/// node's children lie inside the arena, strictly after the node
/// itself, and its plane is well-formed.
pub open spec fn node_ok<T>(nodes: Seq<BspNode<T>>, i: int) -> bool {
    match nodes[i] {
        BspNode::Inode(ino) => {
            &&& i < ino.le.0 < nodes.len()
            &&& i < ino.gt.0 < nodes.len()
            &&& ino.plane.wf()
        },
        BspNode::Leaf(_) => true,
    }
}

/// The arena invariant, which every operation preserves.
pub open spec fn inv_nodes<T>(nodes: Seq<BspNode<T>>) -> bool {
    forall|i: int| 0 <= i < nodes.len() ==> #[trigger] node_ok(nodes, i)
}

/// The key of the leaf that the descent from slot `i` reaches for
/// point `p`: at each internal node follow `le` when the signed
/// distance of `p` is `<= 0`, else `gt`.  `None` when some signed
/// distance along the path cannot be computed within the machine
/// bounds.
pub open spec fn spec_locate<T>(nodes: Seq<BspNode<T>>, i: int, p: Rat2) -> Option<int>
    decreases nodes.len() - i
        when 0 <= i < nodes.len() && inv_nodes(nodes)
        via spec_locate_decreases::<T>
{
    match nodes[i] {
        BspNode::Leaf(_) => Some(i),
        BspNode::Inode(ino) => {
            if !dist_fits(p, ino.plane@) {
                None
            } else if le_side(p, ino.plane@) {
                spec_locate(nodes, ino.le.0 as int, p)
            } else {
                spec_locate(nodes, ino.gt.0 as int, p)
            }
        },
    }
}

#[via_fn]
proof fn spec_locate_decreases<T>(nodes: Seq<BspNode<T>>, i: int, p: Rat2) {
    assert(node_ok(nodes, i));
}

/// The payload of the leaf that the descent reaches.
pub open spec fn spec_value_at<T>(nodes: Seq<BspNode<T>>, i: int, p: Rat2) -> Option<T> {
    match spec_locate(nodes, i, p) {
        Some(k) => match nodes[k] {
            BspNode::Leaf(l) => Some(l.0),
            BspNode::Inode(_) => None,
        },
        None => None,
    }
}

/// A successful descent always ends at a leaf slot inside the arena,
/// no earlier than where it started.
pub proof fn lemma_locate_leaf<T>(nodes: Seq<BspNode<T>>, i: int, p: Rat2)
    requires
        inv_nodes(nodes),
        0 <= i < nodes.len(),
        spec_locate(nodes, i, p) is Some,
    ensures
        spec_locate(nodes, i, p) matches Some(k) ==> i <= k < nodes.len() && nodes[k] is Leaf,
        spec_value_at(nodes, i, p) is Some,
    decreases nodes.len() - i,
{
    match nodes[i] {
        BspNode::Leaf(_) => {},
        BspNode::Inode(ino) => {
            assert(node_ok(nodes, i));
            if le_side(p, ino.plane@) {
                lemma_locate_leaf(nodes, ino.le.0 as int, p);
            } else {
                lemma_locate_leaf(nodes, ino.gt.0 as int, p);
            }
        },
    }
}

/// Point location is deterministic: on one tree state, two descents
/// for the same point reach the same leaf key (or fail the same way).
pub proof fn lemma_point_location_deterministic<T>(
    nodes: Seq<BspNode<T>>,
    i: int,
    p: Rat2,
    r1: Option<int>,
    r2: Option<int>,
)
    requires
        r1 == spec_locate(nodes, i, p),
        r2 == spec_locate(nodes, i, p),
    ensures
        r1 == r2,
{
}

/// Split correctness, the new region: let a split replace leaf `k` —
/// reached for the split point — by the internal node `ino` whose
/// children are the two appended leaves `a` (the `<= 0` side, holding
/// the old payload) and `b` (the `> 0` side, holding the new payload).
/// Every point `q` that the old tree routed to leaf `k`, and whose
/// signed distance from the new plane stays within the machine bounds,
/// is routed by the new tree to `a` when that distance is `<= 0` and
/// to `b` when it is `> 0`; its payload afterwards is therefore the
/// old payload on the `<= 0` side and the new payload on the `> 0`
/// side.
pub proof fn lemma_split_routes_new_leaves<T>(
    pre: Seq<BspNode<T>>,
    root: int,
    k: int,
    ino: BspInode,
    a: BspNode<T>,
    b: BspNode<T>,
    q: Rat2,
)
    requires
        inv_nodes(pre),
        0 <= root < pre.len(),
        0 <= k < pre.len(),
        ino.le.0 == pre.len(),
        ino.gt.0 == pre.len() + 1,
        ino.plane.wf(),
        a is Leaf,
        b is Leaf,
        spec_locate(pre, root, q) == Some(k),
        dist_fits(q, ino.plane@),
    ensures
        ({
            let post = pre.update(k, BspNode::Inode(ino)).push(a).push(b);
            &&& le_side(q, ino.plane@) ==> spec_locate(post, root, q) == Some(pre.len() as int)
                && spec_value_at(post, root, q) == Some(a->Leaf_0.0)
            &&& !le_side(q, ino.plane@) ==> spec_locate(post, root, q) == Some(pre.len() as int + 1)
                && spec_value_at(post, root, q) == Some(b->Leaf_0.0)
        }),
    decreases pre.len() - root,
{
    let post = pre.update(k, BspNode::Inode(ino)).push(a).push(b);
    lemma_inv_after_split(pre, k, ino, a, b);
    if root == k {
        assert(post[root] == BspNode::<T>::Inode(ino));
        assert(post[ino.le.0 as int] == a);
        assert(post[ino.gt.0 as int] == b);
        if le_side(q, ino.plane@) {
            assert(spec_locate(post, ino.le.0 as int, q) == Some(ino.le.0 as int));
        } else {
            assert(spec_locate(post, ino.gt.0 as int, q) == Some(ino.gt.0 as int));
        }
    } else {
        match pre[root] {
            BspNode::Inode(rino) => {
                assert(node_ok(pre, root));
                assert(post[root] == pre[root]);
                if le_side(q, rino.plane@) {
                    lemma_split_routes_new_leaves(pre, rino.le.0 as int, k, ino, a, b, q);
                } else {
                    lemma_split_routes_new_leaves(pre, rino.gt.0 as int, k, ino, a, b, q);
                }
            },
            BspNode::Leaf(_) => {
                assert(false);
            },
        }
    }
}

/// Split correctness, the untouched regions: a point that the old tree
/// routed to some other leaf `j` is routed to the same leaf `j` by the
/// new tree, and its payload is unchanged.
pub proof fn lemma_split_preserves_other_leaves<T>(
    pre: Seq<BspNode<T>>,
    root: int,
    k: int,
    ino: BspInode,
    a: BspNode<T>,
    b: BspNode<T>,
    q: Rat2,
    j: int,
)
    requires
        inv_nodes(pre),
        0 <= root < pre.len(),
        0 <= k < pre.len(),
        pre[k] is Leaf,
        ino.le.0 == pre.len(),
        ino.gt.0 == pre.len() + 1,
        ino.plane.wf(),
        a is Leaf,
        b is Leaf,
        spec_locate(pre, root, q) == Some(j),
        j != k,
    ensures
        ({
            let post = pre.update(k, BspNode::Inode(ino)).push(a).push(b);
            &&& spec_locate(post, root, q) == Some(j)
            &&& spec_value_at(post, root, q) == spec_value_at(pre, root, q)
        }),
    decreases pre.len() - root,
{
    let post = pre.update(k, BspNode::Inode(ino)).push(a).push(b);
    lemma_inv_after_split(pre, k, ino, a, b);
    lemma_locate_leaf(pre, root, q);
    match pre[root] {
        BspNode::Inode(rino) => {
            assert(node_ok(pre, root));
            assert(post[root] == pre[root]);
            if le_side(q, rino.plane@) {
                lemma_split_preserves_other_leaves(pre, rino.le.0 as int, k, ino, a, b, q, j);
            } else {
                lemma_split_preserves_other_leaves(pre, rino.gt.0 as int, k, ino, a, b, q, j);
            }
        },
        BspNode::Leaf(_) => {
            assert(j == root);
            assert(root != k);
            let s1 = pre.update(k, BspNode::<T>::Inode(ino));
            assert(s1[root] == pre[root]);
            assert(s1.push(a)[root] == s1[root]);
            assert(s1.push(a).push(b)[root] == s1.push(a)[root]);
        },
    }
}

/// Replacing leaf `k` by an internal node whose children are the two
/// slots appended at the end keeps the arena invariant.
pub proof fn lemma_inv_after_split<T>(
    pre: Seq<BspNode<T>>,
    k: int,
    ino: BspInode,
    a: BspNode<T>,
    b: BspNode<T>,
)
    requires
        inv_nodes(pre),
        0 <= k < pre.len(),
        ino.le.0 == pre.len(),
        ino.gt.0 == pre.len() + 1,
        ino.plane.wf(),
        a is Leaf,
        b is Leaf,
    ensures
        inv_nodes(pre.update(k, BspNode::Inode(ino)).push(a).push(b)),
{
    let post = pre.update(k, BspNode::Inode(ino)).push(a).push(b);
    assert forall|i: int| 0 <= i < post.len() implies #[trigger] node_ok(post, i) by {
        if i < pre.len() {
            assert(node_ok(pre, i));
        }
    }
}

/// What a leaf listing holds in the mathematical model: for each leaf
/// reached, its slot and its region polygon.
pub open spec fn pairs_view(v: Seq<(BspKey, Polygon)>) -> Seq<(int, Seq<Rat2>)> {
    v.map_values(|p: (BspKey, Polygon)| (p.0.0 as int, p.1@))
}

/// The leaf polygons of the subtree at slot `i`, given the region
/// polygon `clip` for that subtree: at each internal node the region
/// is clipped by the node's plane, once keeping the `<= 0` side for
/// the `le` child and once keeping the `> 0` side for the `gt` child,
/// and each leaf reports its remaining region.  `None` when some clip
/// along the way leaves the machine bounds.
pub open spec fn spec_visit<T>(nodes: Seq<BspNode<T>>, i: int, clip: Seq<Rat2>) -> Option<
    Seq<(int, Seq<Rat2>)>,
>
    decreases nodes.len() - i
        when 0 <= i < nodes.len() && inv_nodes(nodes)
        via spec_visit_decreases::<T>
{
    match nodes[i] {
        BspNode::Leaf(_) => Some(seq![(i, clip)]),
        BspNode::Inode(ino) => {
            match spec_clip(clip, ino.plane@, true) {
                None => None,
                Some(cl) => match spec_clip(clip, ino.plane@, false) {
                    None => None,
                    Some(cg) => match spec_visit(nodes, ino.le.0 as int, cl) {
                        None => None,
                        Some(a) => match spec_visit(nodes, ino.gt.0 as int, cg) {
                            None => None,
                            Some(b) => Some(a + b),
                        },
                    },
                },
            }
        },
    }
}

#[via_fn]
proof fn spec_visit_decreases<T>(nodes: Seq<BspNode<T>>, i: int, clip: Seq<Rat2>) {
    assert(node_ok(nodes, i));
}

/// The keys of the leaves of the subtree at slot `i`, in depth-first
/// order.
pub open spec fn spec_leaves<T>(nodes: Seq<BspNode<T>>, i: int) -> Seq<int>
    decreases nodes.len() - i
        when 0 <= i < nodes.len() && inv_nodes(nodes)
        via spec_leaves_decreases::<T>
{
    match nodes[i] {
        BspNode::Leaf(_) => seq![i],
        BspNode::Inode(ino) => spec_leaves(nodes, ino.le.0 as int) + spec_leaves(
            nodes,
            ino.gt.0 as int,
        ),
    }
}

#[via_fn]
proof fn spec_leaves_decreases<T>(nodes: Seq<BspNode<T>>, i: int) {
    assert(node_ok(nodes, i));
}

/// A successful traversal lists exactly the leaves of the subtree it
/// was started on: one polygon per leaf, in depth-first order.
pub proof fn lemma_visit_one_pair_per_leaf<T>(
    nodes: Seq<BspNode<T>>,
    i: int,
    clip: Seq<Rat2>,
    ps: Seq<(int, Seq<Rat2>)>,
)
    requires
        inv_nodes(nodes),
        0 <= i < nodes.len(),
        spec_visit(nodes, i, clip) == Some(ps),
    ensures
        ps.len() == spec_leaves(nodes, i).len(),
        forall|j: int| 0 <= j < ps.len() ==> (#[trigger] ps[j]).0 == spec_leaves(nodes, i)[j],
    decreases nodes.len() - i,
{
    assert(node_ok(nodes, i));
    match nodes[i] {
        BspNode::Leaf(_) => {
            assert(ps == seq![(i, clip)]);
        },
        BspNode::Inode(ino) => {
            let cl = spec_clip(clip, ino.plane@, true)->Some_0;
            let cg = spec_clip(clip, ino.plane@, false)->Some_0;
            let a = spec_visit(nodes, ino.le.0 as int, cl)->Some_0;
            let b = spec_visit(nodes, ino.gt.0 as int, cg)->Some_0;
            lemma_visit_one_pair_per_leaf(nodes, ino.le.0 as int, cl, a);
            lemma_visit_one_pair_per_leaf(nodes, ino.gt.0 as int, cg, b);
            assert(ps == a + b);
            let la = spec_leaves(nodes, ino.le.0 as int);
            let lb = spec_leaves(nodes, ino.gt.0 as int);
            assert forall|j: int| 0 <= j < ps.len() implies (#[trigger] ps[j]).0 == (la + lb)[j] by {
                if j < a.len() {
                    assert(ps[j] == a[j]);
                } else {
                    assert(ps[j] == b[j - a.len()]);
                }
            }
        },
    }
}

impl<T> Bsp<T> {
    /// The arena invariant together with a root key that lies inside
    /// the arena.
    pub open spec fn wf(self) -> bool {
        &&& inv_nodes(self.nodes@)
        &&& self.root.0 < self.nodes@.len()
    }

    /// A tree of a single leaf holding `root_val`; that leaf's key is
    /// the root.
    pub fn new(root_val: T) -> (r: Bsp<T>)
        ensures
            r.wf(),
            r.nodes@ =~= seq![BspNode::Leaf(BspLeaf(root_val))],
            r.root == (BspKey(0)),
    {
        let mut nodes: Vec<BspNode<T>> = Vec::new();
        nodes.push(BspNode::Leaf(BspLeaf(root_val)));
        Bsp { nodes, root: BspKey(0) }
    }

    /// The total node count, internal and leaf nodes together.
    pub fn len(&self) -> (r: usize)
        ensures
            r == self.nodes@.len(),
    {
        self.nodes.len()
    }

    /// The key of the current root node.
    pub fn root_key(&self) -> (r: BspKey)
        ensures
            r == self.root,
    {
        self.root
    }

    /// Descend from the root to the leaf whose region holds `point`.
    /// `None` only when some signed distance along the path cannot be
    /// computed within the machine bounds.
    pub fn leaf_index_for_point(&self, point: &Vec2) -> (r: Option<BspKey>)
        requires
            self.wf(),
            point.wf(),
        ensures
            r matches Some(k) ==> spec_locate(self.nodes@, self.root.0 as int, point@) == Some(
                k.0 as int,
            ) && k.0 < self.nodes@.len() && self.nodes@[k.0 as int] is Leaf,
            r is Some <==> spec_locate(self.nodes@, self.root.0 as int, point@) is Some,
    {
        let mut node: BspKey = self.root_key();
        loop
            invariant
                self.wf(),
                point.wf(),
                node.0 < self.nodes@.len(),
                spec_locate(self.nodes@, self.root.0 as int, point@) == spec_locate(
                    self.nodes@,
                    node.0 as int,
                    point@,
                ),
            decreases self.nodes@.len() - node.0,
        {
            proof {
                assert(node_ok(self.nodes@, node.0 as int));
            }
            match &self.nodes[node.0] {
                BspNode::Inode(inode) => {
                    let dist = match inode.plane.distance_to_point(point) {
                        Some(d) => d,
                        None => {
                            return None;
                        },
                    };
                    if dist.le_zero() {
                        node = inode.le;
                    } else {
                        node = inode.gt;
                    }
                },
                BspNode::Leaf(_) => {
                    return Some(node);
                },
            }
        }
    }

    /// A mutable borrow of the payload at the leaf whose region holds
    /// `point`.  The caller must know that the descent stays within
    /// the machine bounds; `leaf_index_for_point` tells.
    pub fn get_at_point_mut(&mut self, point: &Vec2) -> (r: &mut T)
        requires
            old(self).wf(),
            point.wf(),
            spec_locate(old(self).nodes@, old(self).root.0 as int, point@) is Some,
        ensures
            spec_value_at(old(self).nodes@, old(self).root.0 as int, point@) == Some(*r),
            spec_locate(old(self).nodes@, old(self).root.0 as int, point@) matches Some(k)
                ==> final(self).nodes@ =~= old(self).nodes@.update(
                k,
                BspNode::Leaf(BspLeaf(*final(r))),
            ),
            final(self).root == old(self).root,
            final(self).wf(),
    {
        proof {
            lemma_locate_leaf(self.nodes@, self.root.0 as int, point@);
            assert forall|k: int, v: T|
                0 <= k < self.nodes@.len() implies inv_nodes(
                #[trigger] self.nodes@.update(k, BspNode::Leaf(BspLeaf(v))),
            ) by {
                let post = self.nodes@.update(k, BspNode::Leaf(BspLeaf(v)));
                assert forall|i: int| 0 <= i < post.len() implies #[trigger] node_ok(post, i) by {
                    assert(node_ok(self.nodes@, i));
                }
            }
        }
        let k = match self.leaf_index_for_point(point) {
            Some(k) => k,
            None => unreached(),
        };
        match &mut self.nodes[k.0] {
            BspNode::Leaf(l) => &mut l.0,
            BspNode::Inode(_) => unreached(),
        }
    }

    /// Split the leaf whose region holds `point` along the plane
    /// through `point` with the given `normal`: the leaf becomes an
    /// internal node whose `le` child is a fresh leaf holding a clone
    /// of the old payload and whose `gt` child is a fresh leaf holding
    /// `new_val`.  The node count grows by exactly two.
    ///
    /// Returns `false`, leaving the tree unchanged, only when the
    /// descent or the plane's offset cannot be computed within the
    /// machine bounds.
    pub fn split_at_point(&mut self, point: &Vec2, normal: &Vec2, new_val: T) -> (r: bool) where
        T: Clone,

        requires
            old(self).wf(),
            point.wf(),
            normal.wf(),
        ensures
            r <==> (spec_locate(old(self).nodes@, old(self).root.0 as int, point@) is Some
                && dot_fits(point@, normal@)),
            !r ==> *final(self) == *old(self),
            r ==> ({
                &&& spec_locate(old(self).nodes@, old(self).root.0 as int, point@) matches Some(k)
                &&& spec_value_at(old(self).nodes@, old(self).root.0 as int, point@)
                    matches Some(v0)
                &&& final(self).nodes@[old(self).nodes@.len() as int] matches BspNode::Leaf(
                    le_leaf,
                )
                &&& cloned::<T>(v0, le_leaf.0)
                &&& final(self).nodes@[k] matches BspNode::Inode(ino)
                &&& ino.plane.normal == *normal
                &&& ino.plane.distance@ == rat_dot(point@, normal@)
                &&& ino.le == (BspKey(old(self).nodes@.len() as usize))
                &&& ino.gt.0 == old(self).nodes@.len() + 1
                &&& final(self).nodes@ =~= old(self).nodes@.update(k, BspNode::Inode(ino)).push(
                    BspNode::Leaf(le_leaf),
                ).push(BspNode::Leaf(BspLeaf(new_val)))
                &&& final(self).root == old(self).root
                &&& final(self).wf()
            }),
    {
        let idx = match self.leaf_index_for_point(point) {
            Some(k) => k,
            None => {
                return false;
            },
        };
        let distance = match point.dot(normal) {
            Some(d) => d,
            None => {
                return false;
            },
        };
        proof {
            lemma_locate_leaf(self.nodes@, self.root.0 as int, point@);
        }
        let le_val: T = match &self.nodes[idx.0] {
            BspNode::Leaf(l) => l.0.clone(),
            BspNode::Inode(_) => unreached(),
        };
        let n = self.nodes.len();
        self.nodes.push(BspNode::Leaf(BspLeaf(le_val)));
        self.nodes.push(BspNode::Leaf(BspLeaf(new_val)));
        let plane = Plane { normal: *normal, distance };
        let m = self.nodes.len();
        let ino = BspInode { plane, le: BspKey(n), gt: BspKey(m - 1) };
        proof {
            lemma_inv_after_split(
                old(self).nodes@,
                idx.0 as int,
                ino,
                self.nodes@[n as int],
                self.nodes@[n + 1],
            );
        }
        self.nodes[idx.0] = BspNode::Inode(ino);
        proof {
            assert(self.nodes@ =~= old(self).nodes@.update(
                idx.0 as int,
                BspNode::Inode(ino),
            ).push(self.nodes@[n as int]).push(self.nodes@[n + 1]));
        }
        true
    }

    /// A borrow of the payload at the leaf whose region holds `point`.
    /// `None` only when the descent leaves the machine bounds.
    pub fn get_at_point(&self, point: &Vec2) -> (r: Option<&T>)
        requires
            self.wf(),
            point.wf(),
        ensures
            r matches Some(v) ==> spec_value_at(self.nodes@, self.root.0 as int, point@) == Some(
                *v,
            ),
            r is Some <==> spec_value_at(self.nodes@, self.root.0 as int, point@) is Some,
    {
        proof {
            if spec_locate(self.nodes@, self.root.0 as int, point@) is Some {
                lemma_locate_leaf(self.nodes@, self.root.0 as int, point@);
            }
        }
        match self.leaf_index_for_point(point) {
            Some(k) => match &self.nodes[k.0] {
                BspNode::Leaf(l) => Some(&l.0),
                BspNode::Inode(_) => unreached(),
            },
            None => None,
        }
    }

    /// A borrow of the payload stored at `key`, when `key` names a
    /// leaf slot of the arena.
    pub fn leaf_value(&self, key: BspKey) -> (r: Option<&T>)
        ensures
            r matches Some(v) ==> key.0 < self.nodes@.len() && (self.nodes@[key.0 as int]
                matches BspNode::Leaf(l) && *v == l.0),
            r is Some <==> (key.0 < self.nodes@.len() && self.nodes@[key.0 as int] is Leaf),
    {
        if key.0 < self.nodes.len() {
            match &self.nodes[key.0] {
                BspNode::Leaf(l) => Some(&l.0),
                BspNode::Inode(_) => None,
            }
        } else {
            None
        }
    }

    /// List every leaf of the subtree at `start` together with its
    /// region polygon, in depth-first order: the region handed in is
    /// clipped by each internal node's plane on the way down, and each
    /// leaf reports what remains.  Starting from the root with a
    /// polygon that covers the whole scene, the reported polygons tile
    /// that polygon.  `None` only when some clip along the way leaves
    /// the machine bounds.
    pub fn visit_leaf_polygons(&self, start: BspKey, clip: Polygon) -> (r: Option<
        Vec<(BspKey, Polygon)>,
    >)
        requires
            self.wf(),
            clip.wf(),
            start.0 < self.nodes@.len(),
        ensures
            r matches Some(v) ==> spec_visit(self.nodes@, start.0 as int, clip@) == Some(
                pairs_view(v@),
            ) && (forall|j: int| 0 <= j < v@.len() ==> (#[trigger] v@[j]).1.wf()),
            r is Some <==> spec_visit(self.nodes@, start.0 as int, clip@) is Some,
        decreases self.nodes@.len() - start.0,
    {
        proof {
            assert(node_ok(self.nodes@, start.0 as int));
        }
        match &self.nodes[start.0] {
            BspNode::Inode(inode) => {
                let clipped_le = match clip.clip_walk(&inode.plane, true) {
                    Some(p) => p,
                    None => {
                        return None;
                    },
                };
                let clipped_gt = match clip.clip_walk(&inode.plane, false) {
                    Some(p) => p,
                    None => {
                        return None;
                    },
                };
                let mut acc = match self.visit_leaf_polygons(inode.le, clipped_le) {
                    Some(v) => v,
                    None => {
                        return None;
                    },
                };
                let mut more = match self.visit_leaf_polygons(inode.gt, clipped_gt) {
                    Some(v) => v,
                    None => {
                        return None;
                    },
                };
                let ghost a_view = acc@;
                let ghost b_view = more@;
                acc.append(&mut more);
                proof {
                    assert(pairs_view(acc@) =~= pairs_view(a_view) + pairs_view(b_view));
                }
                Some(acc)
            },
            BspNode::Leaf(_) => {
                let mut v: Vec<(BspKey, Polygon)> = Vec::new();
                let ghost clip_view = clip@;
                v.push((start, clip));
                proof {
                    assert(pairs_view(v@) =~= seq![(start.0 as int, clip_view)]);
                }
                Some(v)
            },
        }
    }
}

} // verus!
