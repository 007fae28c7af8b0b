//! A static quad tree over regions of type `B`: every node is split into four
//! quadrants down to a fixed depth. The regions (floating-point rectangles in
//! the games) are opaque here: the tree is built with a `quadrants` closure
//! and searched with a `hit` closure that tells whether a region meets the
//! object being placed.
use std::collections::HashMap;
use std::collections::HashSet;
use vstd::prelude::*;

verus! {

broadcast use vstd::std_specs::hash::group_hash_axioms;

/// A node of the tree: its region and, unless it is a leaf, the indices of
/// its four quadrants.
pub struct StaticQuadTreeNode<B> {
    bounds: B,
    children: Option<[usize; 4]>,
}

/// The nodes of a quad tree; node 0 is the root.
pub struct StaticQuadTree<B> {
    nodes: Vec<StaticQuadTreeNode<B>>,
}

/// The shape of a tree: for each node, the index of its first child (the
/// four children are consecutive), or `None` for a leaf.
spec fn first_children<B>(nodes: Seq<StaticQuadTreeNode<B>>) -> Seq<Option<usize>> {
    Seq::new(
        nodes.len(),
        |i: int|
            match nodes[i].children {
                Some(c) => Some(c[0]),
                None => None,
            },
    )
}

/// The shape after `subdivide` splits node `index` at `depth`: four leaves
/// are appended as its children, and split in turn, one after the other,
/// while `depth < max_depth`.
pub open spec fn subdivided(s: Seq<Option<usize>>, index: int, depth: int, max_depth: int) -> Seq<
    Option<usize>,
>
    decreases max_depth - depth,
{
    let l = s.len() as int;
    let s1 = s.update(index, Some(l as usize)) + seq![None::<usize>, None, None, None];
    if depth < max_depth {
        subdivided(
            subdivided(
                subdivided(subdivided(s1, l, depth + 1, max_depth), l + 1, depth + 1, max_depth),
                l + 2,
                depth + 1,
                max_depth,
            ),
            l + 3,
            depth + 1,
            max_depth,
        )
    } else {
        s1
    }
}

/// The number of nodes that splitting a node at `depth` appends.
pub open spec fn added_nodes(depth: int, max_depth: int) -> nat
    decreases max_depth - depth,
{
    if depth < max_depth {
        4 + 4 * added_nodes(depth + 1, max_depth)
    } else {
        4
    }
}

/// The shape of a tree built with `max_depth`: a root split at depth 1.
pub open spec fn full_shape(max_depth: int) -> Seq<Option<usize>> {
    subdivided(seq![None::<usize>], 0, 1, max_depth)
}

/// Children come after their parent and lie within the tree.
pub open spec fn shape_wf(s: Seq<Option<usize>>) -> bool {
    forall|i: int|
        0 <= i < s.len() && (#[trigger] s[i]) is Some ==> i < s[i]->0 && s[i]->0 + 3 < s.len()
}

proof fn lemma_subdivided(s: Seq<Option<usize>>, index: int, depth: int, max_depth: int)
    requires
        0 <= index < s.len(),
        s[index] is None,
        shape_wf(s),
        s.len() + added_nodes(depth, max_depth) <= usize::MAX + 1,
    ensures
        subdivided(s, index, depth, max_depth).len() == s.len() + added_nodes(depth, max_depth),
        shape_wf(subdivided(s, index, depth, max_depth)),
        subdivided(s, index, depth, max_depth)[index] == Some(s.len() as usize),
        forall|i: int|
            0 <= i < s.len() && i != index ==> #[trigger] subdivided(s, index, depth, max_depth)[i]
                == s[i],
    decreases max_depth - depth,
{
    let l = s.len() as int;
    let s1 = s.update(index, Some(l as usize)) + seq![None::<usize>, None, None, None];
    assert(shape_wf(s1)) by {
        assert forall|i: int| 0 <= i < s1.len() && (#[trigger] s1[i]) is Some implies i < s1[i]->0
            && s1[i]->0 + 3 < s1.len() by {
            if i < l && i != index {
                assert(s1[i] == s[i]);
            }
        }
    }
    if depth < max_depth {
        lemma_subdivided(s1, l, depth + 1, max_depth);
        let s2 = subdivided(s1, l, depth + 1, max_depth);
        lemma_subdivided(s2, l + 1, depth + 1, max_depth);
        let s3 = subdivided(s2, l + 1, depth + 1, max_depth);
        lemma_subdivided(s3, l + 2, depth + 1, max_depth);
        let s4 = subdivided(s3, l + 2, depth + 1, max_depth);
        lemma_subdivided(s4, l + 3, depth + 1, max_depth);
        let s5 = subdivided(s4, l + 3, depth + 1, max_depth);
        assert forall|i: int| 0 <= i < s.len() && i != index implies #[trigger] s5[i] == s[i] by {
            assert(s1[i] == s[i]);
            assert(s2[i] == s1[i]);
            assert(s3[i] == s2[i]);
            assert(s4[i] == s3[i]);
        }
        assert(s5[index] == s4[index]);
        assert(s4[index] == s3[index]);
        assert(s3[index] == s2[index]);
        assert(s2[index] == s1[index]);
    }
}

/// Node `i` is one of the four children of node `p`.
pub open spec fn is_child_of(s: Seq<Option<usize>>, p: int, i: int) -> bool {
    &&& 0 <= p < s.len()
    &&& s[p] is Some
    &&& s[p]->0 <= i < s[p]->0 + 4
}

/// Node `i` is a child of some node.
pub open spec fn has_parent(s: Seq<Option<usize>>, i: int) -> bool {
    exists|p: int| #[trigger] is_child_of(s, p, i)
}

/// Every node but the root is the child of exactly one node, and the root
/// of none.
pub open spec fn one_parent_each(s: Seq<Option<usize>>) -> bool {
    &&& forall|i: int| 1 <= i < s.len() ==> #[trigger] has_parent(s, i)
    &&& forall|p: int, q: int, i: int|
        #[trigger] is_child_of(s, p, i) && #[trigger] is_child_of(s, q, i) ==> p == q
    &&& forall|p: int| !#[trigger] is_child_of(s, p, 0)
}

proof fn lemma_subdivided_tree(s: Seq<Option<usize>>, index: int, depth: int, max_depth: int)
    requires
        0 <= index < s.len(),
        s[index] is None,
        shape_wf(s),
        one_parent_each(s),
        s.len() + added_nodes(depth, max_depth) <= usize::MAX + 1,
    ensures
        one_parent_each(subdivided(s, index, depth, max_depth)),
    decreases max_depth - depth,
{
    let l = s.len() as int;
    let s1 = s.update(index, Some(l as usize)) + seq![None::<usize>, None, None, None];
    lemma_subdivided(s, index, depth, max_depth);
    assert(shape_wf(s1)) by {
        assert forall|i: int| 0 <= i < s1.len() && (#[trigger] s1[i]) is Some implies i < s1[i]->0
            && s1[i]->0 + 3 < s1.len() by {
            if i < l && i != index {
                assert(s1[i] == s[i]);
            }
        }
    }
    assert(one_parent_each(s1)) by {
        assert forall|p: int, i: int| #[trigger] is_child_of(s1, p, i) implies (p == index && l
            <= i < l + 4) || (p != index && p < l && is_child_of(s, p, i)) by {
            if p != index && p < l {
                assert(s1[p] == s[p]);
            }
        }
        assert forall|i: int| 1 <= i < s1.len() implies #[trigger] has_parent(s1, i) by {
            if i < l {
                assert(has_parent(s, i));
                let p = choose|p: int| #[trigger] is_child_of(s, p, i);
                assert(p != index);
                assert(s1[p] == s[p]);
                assert(is_child_of(s1, p, i));
            } else {
                assert(is_child_of(s1, index, i));
            }
        }
        assert forall|p: int, q: int, i: int|
            #[trigger] is_child_of(s1, p, i) && #[trigger] is_child_of(s1, q, i) implies p == q by {
            if p != index && q != index {
                assert(is_child_of(s, p, i) && is_child_of(s, q, i));
            } else if p != index {
                assert(is_child_of(s, p, i));
                assert(s[p]->0 + 3 < l);
            } else if q != index {
                assert(is_child_of(s, q, i));
                assert(s[q]->0 + 3 < l);
            }
        }
        assert forall|p: int| !#[trigger] is_child_of(s1, p, 0) by {
            if is_child_of(s1, p, 0) {
                if p != index && p < l {
                    assert(s1[p] == s[p]);
                    assert(is_child_of(s, p, 0));
                }
            }
        }
    }
    if depth < max_depth {
        lemma_subdivided(s1, l, depth + 1, max_depth);
        lemma_subdivided_tree(s1, l, depth + 1, max_depth);
        let s2 = subdivided(s1, l, depth + 1, max_depth);
        lemma_subdivided(s2, l + 1, depth + 1, max_depth);
        lemma_subdivided_tree(s2, l + 1, depth + 1, max_depth);
        let s3 = subdivided(s2, l + 1, depth + 1, max_depth);
        lemma_subdivided(s3, l + 2, depth + 1, max_depth);
        lemma_subdivided_tree(s3, l + 2, depth + 1, max_depth);
        let s4 = subdivided(s3, l + 2, depth + 1, max_depth);
        lemma_subdivided_tree(s4, l + 3, depth + 1, max_depth);
    }
}

/// Each split node has four consecutive children after it, within the tree.
spec fn tree_wf<B>(nodes: Seq<StaticQuadTreeNode<B>>) -> bool {
    forall|i: int|
        0 <= i < nodes.len() && (#[trigger] nodes[i]).children is Some ==> {
            let c = nodes[i].children->0;
            &&& c[1] == c[0] + 1
            &&& c[2] == c[0] + 2
            &&& c[3] == c[0] + 3
            &&& i < c[0]
            &&& c[3] < nodes.len()
        }
}

/// Regions and shape agree: each split node has four consecutive children
/// after it, whose regions are what `quadrants` gives for its region.
spec fn nodes_wf<B, F: Fn(&B) -> (B, B, B, B)>(
    nodes: Seq<StaticQuadTreeNode<B>>,
    quadrants: F,
) -> bool {
    forall|i: int|
        0 <= i < nodes.len() && (#[trigger] nodes[i]).children is Some ==> {
            let c = nodes[i].children->0;
            &&& c[1] == c[0] + 1
            &&& c[2] == c[0] + 2
            &&& c[3] == c[0] + 3
            &&& i < c[0]
            &&& c[3] < nodes.len()
            &&& quadrants.ensures(
                (&nodes[i].bounds,),
                (
                    nodes[c[0] as int].bounds,
                    nodes[c[1] as int].bounds,
                    nodes[c[2] as int].bounds,
                    nodes[c[3] as int].bounds,
                ),
            )
        }
}

fn subdivide<B, F: Fn(&B) -> (B, B, B, B)>(
    nodes: &mut Vec<StaticQuadTreeNode<B>>,
    index: usize,
    depth: usize,
    max_depth: usize,
    quadrants: &F,
)
    requires
        index < old(nodes)@.len(),
        old(nodes)@[index as int].children is None,
        old(nodes)@.len() + added_nodes(depth as int, max_depth as int) <= usize::MAX,
        forall|b: &B| #[trigger] quadrants.requires((b,)),
        nodes_wf(old(nodes)@, *quadrants),
    ensures
        first_children(final(nodes)@) == subdivided(
            first_children(old(nodes)@),
            index as int,
            depth as int,
            max_depth as int,
        ),
        final(nodes)@.len() == old(nodes)@.len() + added_nodes(depth as int, max_depth as int),
        forall|i: int| 0 <= i < old(nodes)@.len() ==> #[trigger] final(nodes)@[i].bounds == old(nodes)@[i].bounds,
        forall|i: int|
            0 <= i < old(nodes)@.len() && i != index ==> #[trigger] final(nodes)@[i].children
                == old(nodes)@[i].children,
        nodes_wf(final(nodes)@, *quadrants),
    decreases max_depth - depth,
{
    let (q0, q1, q2, q3) = quadrants(&nodes[index].bounds);
    let len = nodes.len();
    let ghost before = nodes@;
    nodes[index].children = Some([len, len + 1, len + 2, len + 3]);
    nodes.push(StaticQuadTreeNode { bounds: q0, children: None });
    nodes.push(StaticQuadTreeNode { bounds: q1, children: None });
    nodes.push(StaticQuadTreeNode { bounds: q2, children: None });
    nodes.push(StaticQuadTreeNode { bounds: q3, children: None });
    assert(first_children(nodes@) =~= first_children(before).update(index as int, Some(len))
        + seq![None::<usize>, None, None, None]);
    assert(nodes_wf(nodes@, *quadrants)) by {
        assert forall|i: int| 0 <= i < nodes@.len() && (#[trigger] nodes@[i]).children is Some implies {
            let c = nodes@[i].children->0;
            &&& c[1] == c[0] + 1
            &&& c[2] == c[0] + 2
            &&& c[3] == c[0] + 3
            &&& i < c[0]
            &&& c[3] < nodes@.len()
            &&& quadrants.ensures(
                (&nodes@[i].bounds,),
                (
                    nodes@[c[0] as int].bounds,
                    nodes@[c[1] as int].bounds,
                    nodes@[c[2] as int].bounds,
                    nodes@[c[3] as int].bounds,
                ),
            )
        } by {
            if i != index {
                assert(before[i].children is Some);
            }
        }
    }
    if depth < max_depth {
        let ghost n1 = nodes@;
        subdivide(nodes, len, depth + 1, max_depth, quadrants);
        let ghost n2 = nodes@;
        subdivide(nodes, len + 1, depth + 1, max_depth, quadrants);
        let ghost n3 = nodes@;
        subdivide(nodes, len + 2, depth + 1, max_depth, quadrants);
        let ghost n4 = nodes@;
        subdivide(nodes, len + 3, depth + 1, max_depth, quadrants);
        assert forall|i: int| 0 <= i < before.len() implies #[trigger] nodes@[i].bounds
            == before[i].bounds by {
            assert(n1[i].bounds == before[i].bounds);
            assert(n2[i].bounds == n1[i].bounds);
            assert(n3[i].bounds == n2[i].bounds);
            assert(n4[i].bounds == n3[i].bounds);
        }
        assert forall|i: int| 0 <= i < before.len() && i != index implies #[trigger] nodes@[i].children
            == before[i].children by {
            assert(n1[i].children == before[i].children);
            assert(n2[i].children == n1[i].children);
            assert(n3[i].children == n2[i].children);
            assert(n4[i].children == n3[i].children);
        }
    }
}

impl<B> StaticQuadTree<B> {
    /// The shape of the tree (see `first_children`).
    pub closed spec fn shape(&self) -> Seq<Option<usize>> {
        first_children(self.nodes@)
    }

    /// The region of node `i`.
    pub closed spec fn region(&self, i: int) -> B {
        self.nodes@[i].bounds
    }

    /// The tree is well formed: it has a root, and each split node has four
    /// consecutive children after it, within the tree.
    pub closed spec fn wf(&self) -> bool {
        &&& 1 <= self.nodes@.len() <= usize::MAX
        &&& tree_wf(self.nodes@)
    }

    /// The number of nodes.
    pub closed spec fn spec_len(&self) -> nat {
        self.nodes@.len()
    }

    /// The children of node `i`, if it is split.
    pub closed spec fn children_of(&self, i: int) -> Option<[usize; 4]> {
        self.nodes@[i].children
    }

    /// The number of nodes.
    pub fn len(&self) -> (r: usize)
        ensures
            r == self.spec_len(),
    {
        self.nodes.len()
    }

    /// The tree's regions agree with its shape and with `quadrants`.
    pub closed spec fn built_with<F: Fn(&B) -> (B, B, B, B)>(&self, quadrants: F) -> bool {
        nodes_wf(self.nodes@, quadrants)
    }

    /// Builds the tree over `root`: the root is split into its four
    /// `quadrants`, and each quadrant split again while its depth is below
    /// `max_depth` (depths count from 1 for the root's children).
    pub fn new<F: Fn(&B) -> (B, B, B, B)>(root: B, max_depth: usize, quadrants: F) -> (r: Self)
        requires
            1 + added_nodes(1, max_depth as int) <= usize::MAX,
            forall|b: &B| #[trigger] quadrants.requires((b,)),
        ensures
            r.shape() == full_shape(max_depth as int),
            r.region(0) == root,
            r.built_with(quadrants),
            r.wf(),
            r.spec_len() == 1 + added_nodes(1, max_depth as int),
    {
        let mut nodes: Vec<StaticQuadTreeNode<B>> = Vec::new();
        nodes.push(StaticQuadTreeNode { bounds: root, children: None });
        assert(first_children(nodes@) =~= seq![None::<usize>]);
        subdivide(&mut nodes, 0, 1, max_depth, &quadrants);
        assert(nodes@.len() >= 1);
        StaticQuadTree { nodes }
    }
}

impl<B> StaticQuadTree<B> {
    /// How the shape, the children and the regions of a tree relate: the
    /// shape has one entry per node, the first child of each split node; the
    /// four children of a split node are consecutive, after it and within the
    /// tree; and, for a tree built with `quadrants`, their regions are what
    /// `quadrants` gives for the node's region.
    pub proof fn node_facts<F: Fn(&B) -> (B, B, B, B)>(&self, quadrants: F, i: int)
        requires
            self.wf(),
            0 <= i < self.spec_len(),
        ensures
            self.shape().len() == self.spec_len(),
            self.shape()[i] == match self.children_of(i) {
                Some(c) => Some(c[0]),
                None => None::<usize>,
            },
            self.children_of(i) is Some ==> {
                let c = self.children_of(i)->0;
                &&& c[1] == c[0] + 1
                &&& c[2] == c[0] + 2
                &&& c[3] == c[0] + 3
                &&& i < c[0]
                &&& c[3] < self.spec_len()
                &&& self.built_with(quadrants) ==> quadrants.ensures(
                    (&self.region(i),),
                    (
                        self.region(c[0] as int),
                        self.region(c[1] as int),
                        self.region(c[2] as int),
                        self.region(c[3] as int),
                    ),
                )
            },
    {
        assert(tree_wf(self.nodes@));
        if self.children_of(i) is Some {
            assert(self.nodes@[i].children is Some);
            if self.built_with(quadrants) {
                assert(nodes_wf(self.nodes@, quadrants));
            }
        }
    }
}

/// `hit` gives one answer per region.
pub open spec fn deterministic<B, F: Fn(&B) -> bool>(hit: F) -> bool {
    forall|b: &B, r1: bool, r2: bool|
        #![trigger hit.ensures((b,), r1), hit.ensures((b,), r2)]
        hit.ensures((b,), r1) && hit.ensures((b,), r2) ==> r1 == r2
}

/// `hit` answers `true` for region `b`.
pub open spec fn hits<B, F: Fn(&B) -> bool>(hit: F, b: B) -> bool {
    hit.ensures((&b,), true)
}

impl<B> StaticQuadTree<B> {
    /// The child of `node` that is the only one of its four children whose
    /// region `hit` meets, if there is exactly one.
    pub open spec fn unique_hit_child<F: Fn(&B) -> bool>(&self, hit: F, node: int) -> Option<int> {
        match self.children_of(node) {
            Some(c) => {
                let h0 = hits(hit, self.region(c[0] as int));
                let h1 = hits(hit, self.region(c[1] as int));
                let h2 = hits(hit, self.region(c[2] as int));
                let h3 = hits(hit, self.region(c[3] as int));
                let n = (if h0 { 1int } else { 0 }) + (if h1 { 1int } else { 0 }) + (if h2 {
                    1int
                } else {
                    0
                }) + (if h3 { 1int } else { 0 });
                if n != 1 {
                    None
                } else if h0 {
                    Some(c[0] as int)
                } else if h1 {
                    Some(c[1] as int)
                } else if h2 {
                    Some(c[2] as int)
                } else {
                    Some(c[3] as int)
                }
            },
            None => None,
        }
    }

    /// The node where the descent from `node` stops: it moves to the only
    /// child that `hit` meets while there is exactly one.
    pub open spec fn descend<F: Fn(&B) -> bool>(&self, hit: F, node: int) -> int
        decreases self.spec_len() - node,
    {
        match self.unique_hit_child(hit, node) {
            Some(c) => if node < c < self.spec_len() {
                self.descend(hit, c)
            } else {
                node
            },
            None => node,
        }
    }

    /// The nodes met from `node` down: `node` itself if `hit` meets its
    /// region, and then, recursively, those met below each of its children.
    pub open spec fn reach<F: Fn(&B) -> bool>(&self, hit: F, node: int) -> Set<usize>
        decreases self.spec_len() - node,
    {
        if 0 <= node < self.spec_len() && hits(hit, self.region(node)) {
            let below = match self.children_of(node) {
                Some(c) => {
                    let r0 = if node < c[0] < self.spec_len() {
                        self.reach(hit, c[0] as int)
                    } else {
                        Set::empty()
                    };
                    let r1 = if node < c[1] < self.spec_len() {
                        self.reach(hit, c[1] as int)
                    } else {
                        Set::empty()
                    };
                    let r2 = if node < c[2] < self.spec_len() {
                        self.reach(hit, c[2] as int)
                    } else {
                        Set::empty()
                    };
                    let r3 = if node < c[3] < self.spec_len() {
                        self.reach(hit, c[3] as int)
                    } else {
                        Set::empty()
                    };
                    r0.union(r1).union(r2).union(r3)
                },
                None => Set::empty(),
            };
            set![node as usize].union(below)
        } else {
            Set::empty()
        }
    }

    /// The smallest node that holds the object that `hit` tests: from the
    /// root, move to the only child whose region `hit` meets, while there is
    /// exactly one.
    pub fn smallest_node<F: Fn(&B) -> bool>(&self, hit: &F) -> (r: usize)
        requires
            self.wf(),
            forall|b: &B| #[trigger] hit.requires((b,)),
            deterministic(*hit),
        ensures
            r == self.descend(*hit, 0),
            r < self.spec_len(),
    {
        let mut current: usize = 0;
        loop
            invariant
                self.wf(),
                forall|b: &B| #[trigger] hit.requires((b,)),
                deterministic(*hit),
                current < self.spec_len(),
                self.descend(*hit, current as int) == self.descend(*hit, 0),
            ensures
                current < self.spec_len(),
                self.descend(*hit, current as int) == self.descend(*hit, 0),
                self.descend(*hit, current as int) == current,
            decreases self.spec_len() - current,
        {
            match self.nodes[current].children {
                Some(children) => {
                    assert(tree_wf(self.nodes@));
                    assert(self.nodes@[current as int].children is Some);
                    let mut matches: Vec<usize> = Vec::new();
                    let mut j: usize = 0;
                    while j < 4
                        invariant
                            self.wf(),
                            forall|b: &B| #[trigger] hit.requires((b,)),
                            deterministic(*hit),
                            self.children_of(current as int) == Some(children),
                            children[1] == children[0] + 1,
                            children[2] == children[0] + 2,
                            children[3] == children[0] + 3,
                            current < children[0],
                            children[3] < self.spec_len(),
                            0 <= j <= 4,
                            forall|m: int| 0 <= m < matches@.len() ==> exists|jj: int| 0 <= jj < j && #[trigger] matches@[m] == children[jj] && hits(*hit, self.region(children[jj] as int)),
                            forall|jj: int, m: int| 0 <= jj < m < j && hits(*hit, self.region(children[jj] as int)) && hits(*hit, self.region(children[m] as int)) ==> matches@.len() >= 2,
                            matches@.len() == (if j > 0 && hits(*hit, self.region(children[0] as int)) { 1int } else { 0 })
                                + (if j > 1 && hits(*hit, self.region(children[1] as int)) { 1int } else { 0 })
                                + (if j > 2 && hits(*hit, self.region(children[2] as int)) { 1int } else { 0 })
                                + (if j > 3 && hits(*hit, self.region(children[3] as int)) { 1int } else { 0 }),
                            matches@.len() >= 1 ==> matches@[0] == (if hits(*hit, self.region(children[0] as int)) { children[0] } else if hits(*hit, self.region(children[1] as int)) { children[1] } else if hits(*hit, self.region(children[2] as int)) { children[2] } else { children[3] }),
                        decreases 4 - j,
                    {
                        let child = children[j];
                        let b = hit(&self.nodes[child].bounds);
                        proof {
                            if b {
                                assert(hits(*hit, self.region(child as int)));
                            } else {
                                assert(!hits(*hit, self.region(child as int)));
                            }
                        }
                        if b {
                            matches.push(child);
                        }
                        j = j + 1;
                    }
                    proof {
                        if matches@.len() == 1 {
                            assert(self.unique_hit_child(*hit, current as int) == Some(matches@[0] as int));
                        } else {
                            assert(self.unique_hit_child(*hit, current as int) is None);
                        }
                    }
                    if matches.len() == 1 {
                        current = matches[0];
                    } else {
                        assert(self.descend(*hit, current as int) == current);
                        break;
                    }
                },
                None => {
                    assert(self.descend(*hit, current as int) == current);
                    break;
                },
            }
        }
        current
    }
}

impl<B> StaticQuadTree<B> {
    fn intersect<F: Fn(&B) -> bool>(&self, index: usize, result: &mut HashSet<usize>, hit: &F)
        requires
            self.wf(),
            index < self.spec_len(),
            forall|b: &B| #[trigger] hit.requires((b,)),
            deterministic(*hit),
        ensures
            final(result)@ == old(result)@.union(self.reach(*hit, index as int)),
        decreases self.spec_len() - index,
    {
        let ghost start = result@;
        if hit(&self.nodes[index].bounds) {
            assert(hits(*hit, self.region(index as int)));
            result.insert(index);
            match self.nodes[index].children {
                Some(children) => {
                    assert(tree_wf(self.nodes@));
                    assert(self.nodes@[index as int].children is Some);
                    self.intersect(children[0], result, hit);
                    self.intersect(children[1], result, hit);
                    self.intersect(children[2], result, hit);
                    self.intersect(children[3], result, hit);
                    assert(result@ =~= start.union(self.reach(*hit, index as int)));
                },
                None => {
                    assert(result@ =~= start.union(self.reach(*hit, index as int)));
                },
            }
        } else {
            assert(!hits(*hit, self.region(index as int)));
            assert(result@ =~= start.union(self.reach(*hit, index as int)));
        }
    }

    /// The nodes whose regions the object that `hit` tests meets, found from
    /// the root down (see `reach`).
    pub fn intersecting_nodes<F: Fn(&B) -> bool>(&self, hit: &F) -> (r: HashSet<usize>)
        requires
            self.wf(),
            forall|b: &B| #[trigger] hit.requires((b,)),
            deterministic(*hit),
        ensures
            r@ == self.reach(*hit, 0),
    {
        let mut result: HashSet<usize> = HashSet::new();
        self.intersect(0, &mut result, hit);
        assert(result@ =~= self.reach(*hit, 0));
        result
    }
}

/// A tree built with `max_depth` has `1 + added_nodes(1, max_depth)` nodes,
/// every child comes after its parent within the tree, and every node but
/// the root has exactly one parent.
pub proof fn quad_tree_shape(max_depth: int)
    requires
        1 + added_nodes(1, max_depth) <= usize::MAX + 1,
    ensures
        full_shape(max_depth).len() == 1 + added_nodes(1, max_depth),
        shape_wf(full_shape(max_depth)),
        one_parent_each(full_shape(max_depth)),
{
    let s = seq![None::<usize>];
    lemma_subdivided(s, 0, 1, max_depth);
    assert forall|p: int, i: int| !#[trigger] is_child_of(s, p, i) by {
        if 0 <= p < s.len() {
            assert(s[p] is None);
        }
    }
    lemma_subdivided_tree(s, 0, 1, max_depth);
}

impl<B> StaticQuadTree<B> {
    proof fn lemma_reach_child<F: Fn(&B) -> bool>(&self, hit: F, m: int, n: int, c: int)
        requires
            self.wf(),
            0 <= m < self.spec_len(),
            0 <= n < self.spec_len(),
            self.reach(hit, m).contains(n as usize),
            self.children_of(n) is Some,
            c == self.children_of(n)->0[0] || c == self.children_of(n)->0[1] || c
                == self.children_of(n)->0[2] || c == self.children_of(n)->0[3],
            hits(hit, self.region(c)),
        ensures
            self.reach(hit, m).contains(c as usize),
        decreases self.spec_len() - m,
    {
        assert(tree_wf(self.nodes@));
        assert(self.nodes@[n].children is Some);
        assert(self.reach(hit, c).contains(c as usize));
        if n != m {
            assert(!set![m as usize].contains(n as usize));
            assert(self.nodes@[m].children is Some);
            let cm = self.children_of(m)->0;
            let j = choose|j: int|
                0 <= j < 4 && self.reach(hit, cm[j] as int).contains(n as usize);
            self.lemma_reach_child(hit, cm[j] as int, n, c);
        }
    }

    proof fn lemma_descend_in_reach<F: Fn(&B) -> bool>(&self, hit: F, n: int)
        requires
            self.wf(),
            0 <= n < self.spec_len(),
            self.reach(hit, 0).contains(n as usize),
        ensures
            self.reach(hit, 0).contains(self.descend(hit, n) as usize),
        decreases self.spec_len() - n,
    {
        match self.unique_hit_child(hit, n) {
            Some(c) => {
                if n < c < self.spec_len() {
                    self.lemma_reach_child(hit, 0, n, c);
                    self.lemma_descend_in_reach(hit, c);
                }
            },
            None => {},
        }
    }
}

/// The parent of node `i` in a tree of shape `s` (in a built tree every node
/// but the root has exactly one).
pub open spec fn parent_of(s: Seq<Option<usize>>, i: int) -> int {
    choose|p: int| #[trigger] is_child_of(s, p, i)
}

/// Node `a` is an ancestor of node `i`: its parent, or an ancestor of that.
pub open spec fn is_ancestor(s: Seq<Option<usize>>, a: int, i: int) -> bool
    decreases i,
{
    if 1 <= i < s.len() && 0 <= parent_of(s, i) < i {
        a == parent_of(s, i) || is_ancestor(s, a, parent_of(s, i))
    } else {
        false
    }
}

impl<B> StaticQuadTree<B> {
    /// The number of children of node `a` whose regions `hit` meets.
    pub open spec fn met_children<F: Fn(&B) -> bool>(&self, hit: F, a: int) -> int {
        match self.children_of(a) {
            Some(c) => (if hits(hit, self.region(c[0] as int)) {
                1int
            } else {
                0
            }) + (if hits(hit, self.region(c[1] as int)) {
                1int
            } else {
                0
            }) + (if hits(hit, self.region(c[2] as int)) {
                1int
            } else {
                0
            }) + (if hits(hit, self.region(c[3] as int)) {
                1int
            } else {
                0
            }),
            None => 0,
        }
    }

    proof fn lemma_home_from<F: Fn(&B) -> bool>(&self, hit: F, n: int)
        requires
            self.wf(),
            one_parent_each(self.shape()),
            0 <= n < self.spec_len(),
        ensures
            0 <= self.descend(hit, n) < self.spec_len(),
            self.descend(hit, n) != n ==> hits(hit, self.region(self.descend(hit, n))),
            self.descend(hit, n) != n ==> self.met_children(hit, n) == 1,
            self.children_of(self.descend(hit, n)) is Some ==> self.met_children(
                hit,
                self.descend(hit, n),
            ) != 1,
            forall|a: int|
                #[trigger] is_ancestor(self.shape(), a, self.descend(hit, n)) ==> a == n
                    || is_ancestor(self.shape(), a, n) || (self.met_children(hit, a) == 1 && hits(
                    hit,
                    self.region(a),
                )),
        decreases self.spec_len() - n,
    {
        let s = self.shape();
        assert(tree_wf(self.nodes@));
        match self.unique_hit_child(hit, n) {
            Some(c) => {
                assert(self.nodes@[n].children is Some);
                assert(s[n] == Some(self.nodes@[n].children->0[0]));
                assert(n < c < self.spec_len());
                self.lemma_home_from(hit, c);
                let r = self.descend(hit, c);
                assert(self.descend(hit, n) == r);
                let cs = self.children_of(n)->0;
                assert(is_child_of(s, n, c));
                assert(parent_of(s, c) == n);
                assert forall|a: int| #[trigger] is_ancestor(s, a, r) implies a == n || is_ancestor(
                    s,
                    a,
                    n,
                ) || (self.met_children(hit, a) == 1 && hits(hit, self.region(a))) by {
                    if a == c {
                        lemma_ancestor_before(s, a, r);
                    } else if is_ancestor(s, a, c) {
                    }
                }
            },
            None => {},
        }
    }
}

/// An ancestor comes before its descendants.
proof fn lemma_ancestor_before(s: Seq<Option<usize>>, a: int, i: int)
    requires
        is_ancestor(s, a, i),
    ensures
        0 <= a < i,
    decreases i,
{
    let p = parent_of(s, i);
    if a != p {
        lemma_ancestor_before(s, a, p);
    }
}

/// The home node holds the object whole. In a tree built with `max_depth`,
/// let `r` be the home node (`smallest_node`, which moves down while exactly
/// one child meets the object). Then the object meets exactly one child of
/// each ancestor of `r`, and meets each ancestor but the root; it meets `r`
/// unless `r` is the root; and, when `r` is split, it meets none or at least
/// two of its children.
pub proof fn home_node_holds_the_object<B, F: Fn(&B) -> bool>(
    tree: StaticQuadTree<B>,
    hit: F,
    max_depth: int,
)
    requires
        tree.wf(),
        tree.shape() == full_shape(max_depth),
        tree.spec_len() == 1 + added_nodes(1, max_depth),
    ensures
        0 <= tree.descend(hit, 0) < tree.spec_len(),
        forall|a: int|
            #[trigger] is_ancestor(tree.shape(), a, tree.descend(hit, 0)) ==> tree.met_children(
                hit,
                a,
            ) == 1 && (a != 0 ==> hits(hit, tree.region(a))),
        tree.descend(hit, 0) != 0 ==> hits(hit, tree.region(tree.descend(hit, 0))),
        tree.children_of(tree.descend(hit, 0)) is Some ==> tree.met_children(
            hit,
            tree.descend(hit, 0),
        ) != 1,
{
    quad_tree_shape(max_depth);
    tree.lemma_home_from(hit, 0);
    let r = tree.descend(hit, 0);
    assert forall|a: int| #[trigger] is_ancestor(tree.shape(), a, r) implies tree.met_children(
        hit,
        a,
    ) == 1 && (a != 0 ==> hits(hit, tree.region(a))) by {
        lemma_ancestor_before(tree.shape(), a, r);
        assert(!is_ancestor(tree.shape(), a, 0));
    }
}

/// An object's home node (`smallest_node`) is one of the nodes it meets
/// (`intersecting_nodes`), as soon as it meets the root's region.
pub proof fn home_node_is_met<B, F: Fn(&B) -> bool>(tree: StaticQuadTree<B>, hit: F)
    requires
        tree.wf(),
        hits(hit, tree.region(0)),
    ensures
        tree.reach(hit, 0).contains(tree.descend(hit, 0) as usize),
{
    assert(tree.reach(hit, 0).contains(0usize));
    tree.lemma_descend_in_reach(hit, 0);
}

/// Every node that an object meets has a region that it meets.
pub proof fn met_nodes_are_hit<B, F: Fn(&B) -> bool>(tree: StaticQuadTree<B>, hit: F, m: int, n: usize)
    requires
        tree.wf(),
        0 <= m < tree.spec_len(),
        tree.reach(hit, m).contains(n),
    ensures
        n < tree.spec_len(),
        hits(hit, tree.region(n as int)),
    decreases tree.spec_len() - m,
{
    assert(tree_wf(tree.nodes@));
    if n != m {
        assert(!set![m as usize].contains(n));
        assert(tree.nodes@[m].children is Some);
        let cm = tree.children_of(m)->0;
        let j = choose|j: int| 0 <= j < 4 && tree.reach(hit, cm[j] as int).contains(n);
        met_nodes_are_hit(tree, hit, cm[j] as int, n);
    }
}

impl<B> StaticQuadTree<B> {
    proof fn lemma_hit_node_reached<F: Fn(&B) -> bool>(&self, hit: F, n: int)
        requires
            self.wf(),
            one_parent_each(self.shape()),
            forall|p: int, c: int|
                #[trigger] is_child_of(self.shape(), p, c) && hits(hit, self.region(c)) ==> hits(
                    hit,
                    self.region(p),
                ),
            0 <= n < self.spec_len(),
            hits(hit, self.region(n)),
        ensures
            self.reach(hit, 0).contains(n as usize),
        decreases n,
    {
        if n == 0 {
            assert(self.reach(hit, 0).contains(0usize));
        } else {
            assert(has_parent(self.shape(), n));
            let p = choose|p: int| #[trigger] is_child_of(self.shape(), p, n);
            assert(self.shape()[p] == match self.nodes@[p].children {
                Some(c) => Some(c[0]),
                None => None::<usize>,
            });
            assert(self.nodes@[p].children is Some);
            assert(tree_wf(self.nodes@));
            let c = self.children_of(p)->0;
            assert(p < c[0]);
            self.lemma_hit_node_reached(hit, p);
            self.lemma_reach_child(hit, 0, p, n);
        }
    }
}

/// The search misses no node. In a tree built with `max_depth`, when each
/// child's region lies within its parent's as far as the object can tell
/// (whenever it meets a child's region, it meets the parent's), the nodes
/// met from the root are exactly the nodes whose regions the object meets,
/// and none is met when it does not meet the root's region.
pub proof fn search_finds_every_hit_node<B, F: Fn(&B) -> bool>(
    tree: StaticQuadTree<B>,
    hit: F,
    max_depth: int,
)
    requires
        tree.wf(),
        tree.shape() == full_shape(max_depth),
        tree.spec_len() == 1 + added_nodes(1, max_depth),
        forall|p: int, c: int|
            #[trigger] is_child_of(tree.shape(), p, c) && hits(hit, tree.region(c)) ==> hits(
                hit,
                tree.region(p),
            ),
    ensures
        tree.reach(hit, 0) == Set::new(
            |n: usize| n < tree.spec_len() && hits(hit, tree.region(n as int)),
        ),
        tree.reach(hit, 0).is_empty() <==> !hits(hit, tree.region(0)),
{
    quad_tree_shape(max_depth);
    let all = Set::new(|n: usize| n < tree.spec_len() && hits(hit, tree.region(n as int)));
    assert forall|n: usize| tree.reach(hit, 0).contains(n) <==> all.contains(n) by {
        if tree.reach(hit, 0).contains(n) {
            met_nodes_are_hit(tree, hit, 0, n);
        }
        if all.contains(n) {
            tree.lemma_hit_node_reached(hit, n as int);
        }
    }
    assert(tree.reach(hit, 0) =~= all);
    if hits(hit, tree.region(0)) {
        assert(tree.reach(hit, 0).contains(0usize));
    } else {
        assert(tree.reach(hit, 0) =~= Set::empty());
    }
}

/// The search misses no node when each region holds its quadrants: if,
/// whenever the object meets one of the `quadrants` of a region, it meets the
/// region itself, then in a tree built over any root with `quadrants` and
/// `max_depth`, the nodes met from the root are exactly the nodes whose
/// regions the object meets, and none is met when it does not meet the
/// root's region.
pub proof fn search_finds_every_hit_region<B, F: Fn(&B) -> bool, Q: Fn(&B) -> (B, B, B, B)>(
    tree: StaticQuadTree<B>,
    hit: F,
    quadrants: Q,
    max_depth: int,
)
    requires
        tree.wf(),
        tree.built_with(quadrants),
        tree.shape() == full_shape(max_depth),
        tree.spec_len() == 1 + added_nodes(1, max_depth),
        forall|b: &B, q: (B, B, B, B)|
            #[trigger] quadrants.ensures((b,), q) && (hits(hit, q.0) || hits(hit, q.1) || hits(
                hit,
                q.2,
            ) || hits(hit, q.3)) ==> hits(hit, *b),
    ensures
        tree.reach(hit, 0) == Set::new(
            |n: usize| n < tree.spec_len() && hits(hit, tree.region(n as int)),
        ),
        tree.reach(hit, 0).is_empty() <==> !hits(hit, tree.region(0)),
{
    assert forall|p: int, c: int|
        #[trigger] is_child_of(tree.shape(), p, c) && hits(hit, tree.region(c)) implies hits(
            hit,
            tree.region(p),
        ) by {
        tree.node_facts(quadrants, p);
        let cs = tree.children_of(p)->0;
        assert(quadrants.ensures(
            (&tree.region(p),),
            (
                tree.region(cs[0] as int),
                tree.region(cs[1] as int),
                tree.region(cs[2] as int),
                tree.region(cs[3] as int),
            ),
        ));
    }
    search_finds_every_hit_node(tree, hit, max_depth);
}

/// The placements of the first `m` items into the spatial index: item `j`
/// goes into each node of `item_nodes[j]`, in order, as `(node, j)`.
pub open spec fn placements(item_nodes: Seq<Seq<usize>>, m: nat) -> Seq<(usize, usize)>
    decreases m,
{
    if m == 0 {
        Seq::empty()
    } else {
        let j = (m - 1) as nat;
        placements(item_nodes, j) + item_nodes[j as int].map_values(|node: usize| (node, j as usize))
    }
}

/// The placements of the first `j` items and of item `j` into its first `q`
/// nodes.
pub open spec fn partial_placements(item_nodes: Seq<Seq<usize>>, j: nat, q: int) -> Seq<(usize, usize)> {
    placements(item_nodes, j) + item_nodes[j as int].take(q).map_values(|node: usize| (node, j as usize))
}

/// The items placed into `node`, in order.
pub open spec fn bucket(ps: Seq<(usize, usize)>, node: usize) -> Seq<usize>
    decreases ps.len(),
{
    if ps.len() == 0 {
        Seq::empty()
    } else {
        let prev = bucket(ps.drop_last(), node);
        if ps.last().0 == node {
            prev.push(ps.last().1)
        } else {
            prev
        }
    }
}

proof fn lemma_placements_items(item_nodes: Seq<Seq<usize>>, m: nat)
    requires
        m <= item_nodes.len(),
        m <= usize::MAX,
    ensures
        forall|k: int|
            0 <= k < placements(item_nodes, m).len() ==> (#[trigger] placements(item_nodes, m)[k]).1
                < m,
    decreases m,
{
    if m > 0 {
        let j = (m - 1) as nat;
        lemma_placements_items(item_nodes, j);
        let prev = placements(item_nodes, j);
        let added = item_nodes[j as int].map_values(|node: usize| (node, j as usize));
        assert forall|k: int| 0 <= k < placements(item_nodes, m).len() implies (
        #[trigger] placements(item_nodes, m)[k]).1 < m by {
            if k < prev.len() {
                assert(placements(item_nodes, m)[k] == prev[k]);
            } else {
                assert(placements(item_nodes, m)[k] == added[k - prev.len()]);
            }
        }
    }
}

proof fn lemma_bucket_items(ps: Seq<(usize, usize)>, node: usize, m: int)
    requires
        forall|k: int| 0 <= k < ps.len() ==> (#[trigger] ps[k]).1 < m,
    ensures
        forall|k: int| 0 <= k < bucket(ps, node).len() ==> #[trigger] bucket(ps, node)[k] < m,
    decreases ps.len(),
{
    if ps.len() > 0 {
        assert forall|k: int| 0 <= k < ps.drop_last().len() implies (#[trigger] ps.drop_last()[k]).1
            < m by {
            assert(ps.drop_last()[k] == ps[k]);
        }
        lemma_bucket_items(ps.drop_last(), node, m);
        assert(ps.last() == ps[ps.len() - 1]);
        let prev = bucket(ps.drop_last(), node);
        assert forall|k: int| 0 <= k < bucket(ps, node).len() implies #[trigger] bucket(ps, node)[k]
            < m by {
            if k < prev.len() {
                assert(bucket(ps, node)[k] == prev[k]);
            }
        }
    }
}

/// The items of `items` whose entity id is not `id`, in order.
pub open spec fn others(items: Seq<usize>, ids: Seq<u64>, id: u64) -> Seq<usize>
    decreases items.len(),
{
    if items.len() == 0 {
        Seq::empty()
    } else {
        let prev = others(items.drop_last(), ids, id);
        if ids[items.last() as int] != id {
            prev.push(items.last())
        } else {
            prev
        }
    }
}

/// The candidates of an object with entity id `id` that lies in `nodes`:
/// for each of its nodes in order, the other entities placed there.
pub open spec fn candidates_for(
    ps: Seq<(usize, usize)>,
    ids: Seq<u64>,
    id: u64,
    nodes: Seq<usize>,
) -> Seq<usize>
    decreases nodes.len(),
{
    if nodes.len() == 0 {
        Seq::empty()
    } else {
        candidates_for(ps, ids, id, nodes.drop_last()) + others(bucket(ps, nodes.last()), ids, id)
    }
}

/// Builds the spatial index of the `placed` items (item `j` has entity id
/// `placed_ids[j]` and is placed into each node of `placed_nodes[j]`), then
/// lists for each `query` item `i` the placed items to test against it: for
/// each node of `query_nodes[i]` in order, the items placed in that node in
/// the order they were placed, except those with the query's own entity id.
pub fn collision_candidates(
    placed_ids: &Vec<u64>,
    placed_nodes: &Vec<Vec<usize>>,
    query_ids: &Vec<u64>,
    query_nodes: &Vec<Vec<usize>>,
) -> (r: Vec<Vec<usize>>)
    requires
        placed_nodes@.len() == placed_ids@.len(),
        query_nodes@.len() == query_ids@.len(),
    ensures
        r@.len() == query_ids@.len(),
        forall|i: int|
            0 <= i < r@.len() ==> (#[trigger] r@[i])@ == candidates_for(
                placements(placed_nodes@.map_values(|v: Vec<usize>| v@), placed_ids@.len()),
                placed_ids@,
                query_ids@[i],
                query_nodes@[i]@,
            ),
{
    let ghost pn = placed_nodes@.map_values(|v: Vec<usize>| v@);
    let mut index: HashMap<usize, Vec<usize>> = HashMap::new();
    let n = placed_ids.len();
    let mut j: usize = 0;
    while j < n
        invariant
            n == placed_ids@.len(),
            placed_nodes@.len() == n,
            pn == placed_nodes@.map_values(|v: Vec<usize>| v@),
            0 <= j <= n,
            forall|node: usize|
                #![trigger index@.contains_key(node)]
                #![trigger bucket(placements(pn, j as nat), node)]
                if index@.contains_key(node) {
                    index@[node]@ == bucket(placements(pn, j as nat), node)
                } else {
                    bucket(placements(pn, j as nat), node) == Seq::<usize>::empty()
                },
        decreases n - j,
    {
        assert(partial_placements(pn, j as nat, 0) =~= placements(pn, j as nat));
        let nodes = &placed_nodes[j];
        let ghost base = placements(pn, j as nat);
        let mut q: usize = 0;
        while q < nodes.len()
            invariant
                n == placed_ids@.len(),
                placed_nodes@.len() == n,
                pn == placed_nodes@.map_values(|v: Vec<usize>| v@),
                0 <= j < n,
                nodes == placed_nodes@[j as int],
                base == placements(pn, j as nat),
                0 <= q <= nodes@.len(),
                forall|node: usize|
                    #![trigger index@.contains_key(node)]
                    #![trigger bucket(partial_placements(pn, j as nat, q as int), node)]
                    if index@.contains_key(node) {
                        index@[node]@ == bucket(
                            partial_placements(pn, j as nat, q as int),
                            node,
                        )
                    } else {
                        bucket(partial_placements(pn, j as nat, q as int), node)
                            == Seq::<usize>::empty()
                    },
            decreases nodes@.len() - q,
        {
            let node = nodes[q];
            let ghost before = partial_placements(pn, j as nat, q as int);
            let ghost after = partial_placements(pn, j as nat, q + 1);
            assert(after =~= before.push((node, j)));
            assert(after.drop_last() =~= before);
            match index.remove(&node) {
                Some(mut items) => {
                    items.push(j);
                    index.insert(node, items);
                },
                None => {
                    let mut items: Vec<usize> = Vec::new();
                    items.push(j);
                    index.insert(node, items);
                },
            }
            assert forall|other: usize|
                #![trigger index@.contains_key(other)]
                #![trigger bucket(after, other)]
                if index@.contains_key(other) {
                    index@[other]@ == bucket(after, other)
                } else {
                    bucket(after, other) == Seq::<usize>::empty()
                } by {
                assert(bucket(after, other) == if other == node {
                    bucket(before, other).push(j)
                } else {
                    bucket(before, other)
                });
            }
            q = q + 1;
        }
        assert(partial_placements(pn, j as nat, nodes@.len() as int) =~= placements(
            pn,
            (j + 1) as nat,
        ));
        j = j + 1;
    }
    let ghost ps = placements(pn, n as nat);
    let mut result: Vec<Vec<usize>> = Vec::new();
    let m = query_ids.len();
    let mut i: usize = 0;
    while i < m
        invariant
            m == query_ids@.len(),
            query_nodes@.len() == m,
            n == placed_ids@.len(),
            ps == placements(pn, n as nat),
            pn == placed_nodes@.map_values(|v: Vec<usize>| v@),
            0 <= i <= m,
            pn.len() == n,
            result@.len() == i,
            forall|node: usize|
                #![trigger index@.contains_key(node)]
                #![trigger bucket(ps, node)]
                if index@.contains_key(node) {
                    index@[node]@ == bucket(ps, node)
                } else {
                    bucket(ps, node) == Seq::<usize>::empty()
                },
            forall|k: int|
                0 <= k < i ==> (#[trigger] result@[k])@ == candidates_for(
                    ps,
                    placed_ids@,
                    query_ids@[k],
                    query_nodes@[k]@,
                ),
        decreases m - i,
    {
        let id = query_ids[i];
        let nodes = &query_nodes[i];
        let mut found: Vec<usize> = Vec::new();
        let mut q: usize = 0;
        while q < nodes.len()
            invariant
                m == query_ids@.len(),
                n == placed_ids@.len(),
                0 <= i < m,
                id == query_ids@[i as int],
                query_nodes@.len() == m,
                nodes == query_nodes@[i as int],
                pn.len() == n,
                ps == placements(pn, n as nat),
                0 <= q <= nodes@.len(),
                forall|node: usize|
                    #![trigger index@.contains_key(node)]
                    #![trigger bucket(ps, node)]
                    if index@.contains_key(node) {
                        index@[node]@ == bucket(ps, node)
                    } else {
                        bucket(ps, node) == Seq::<usize>::empty()
                    },
                    found@ == candidates_for(ps, placed_ids@, id, nodes@.take(q as int)),
            decreases nodes@.len() - q,
        {
            let node = nodes[q];
            assert(nodes@.take(q + 1).drop_last() =~= nodes@.take(q as int));
            match index.get(&node) {
                Some(items) => {
                    let ghost start = found@;
                    proof {
                        lemma_placements_items(pn, n as nat);
                        lemma_bucket_items(ps, node, n as int);
                    }
                    let mut t: usize = 0;
                    while t < items.len()
                        invariant
                            n == placed_ids@.len(),
                            items@ == bucket(ps, node),
                            forall|k: int| 0 <= k < items@.len() ==> #[trigger] items@[k] < n,
                            0 <= t <= items@.len(),
                            found@ == start + others(items@.take(t as int), placed_ids@, id),
                        decreases items@.len() - t,
                    {
                        let b = items[t];
                        assert(items@.take(t + 1).drop_last() =~= items@.take(t as int));
                        assert(b < n);
                        if placed_ids[b] != id {
                            found.push(b);
                        }
                        t = t + 1;
                    }
                    assert(items@.take(items@.len() as int) =~= items@);
                },
                None => {
                    assert(others(bucket(ps, node), placed_ids@, id) =~= Seq::<usize>::empty());
                },
            }
            q = q + 1;
        }
        assert(nodes@.take(nodes@.len() as int) =~= nodes@);
        result.push(found);
        i = i + 1;
    }
    result
}

proof fn lemma_others(items: Seq<usize>, ids: Seq<u64>, id: u64)
    ensures
        forall|k: int|
            0 <= k < others(items, ids, id).len() ==> ids[others(items, ids, id)[k] as int] != id
                && items.contains(#[trigger] others(items, ids, id)[k]),
    decreases items.len(),
{
    if items.len() > 0 {
        lemma_others(items.drop_last(), ids, id);
        let prev = others(items.drop_last(), ids, id);
        assert forall|k: int| 0 <= k < others(items, ids, id).len() implies ids[others(
            items,
            ids,
            id,
        )[k] as int] != id && items.contains(#[trigger] others(items, ids, id)[k]) by {
            if k < prev.len() {
                assert(others(items, ids, id)[k] == prev[k]);
                let x = prev[k];
                let w = choose|w: int| 0 <= w < items.drop_last().len() && items.drop_last()[w] == x;
                assert(items[w] == x);
            } else {
                assert(items[items.len() - 1] == items.last());
            }
        }
    }
}

/// A candidate never carries the query's own entity id, and it was placed
/// in one of the query's nodes.
pub proof fn candidates_are_other_neighbours(
    ps: Seq<(usize, usize)>,
    ids: Seq<u64>,
    id: u64,
    nodes: Seq<usize>,
)
    ensures
        forall|k: int|
            0 <= k < candidates_for(ps, ids, id, nodes).len() ==> {
                let c = #[trigger] candidates_for(ps, ids, id, nodes)[k];
                &&& ids[c as int] != id
                &&& exists|q: int| 0 <= q < nodes.len() && bucket(ps, nodes[q]).contains(c)
            },
    decreases nodes.len(),
{
    if nodes.len() > 0 {
        candidates_are_other_neighbours(ps, ids, id, nodes.drop_last());
        let prev = candidates_for(ps, ids, id, nodes.drop_last());
        let last = others(bucket(ps, nodes.last()), ids, id);
        lemma_others(bucket(ps, nodes.last()), ids, id);
        assert forall|k: int| 0 <= k < candidates_for(ps, ids, id, nodes).len() implies {
            let c = #[trigger] candidates_for(ps, ids, id, nodes)[k];
            &&& ids[c as int] != id
            &&& exists|q: int| 0 <= q < nodes.len() && bucket(ps, nodes[q]).contains(c)
        } by {
            let c = candidates_for(ps, ids, id, nodes)[k];
            if k < prev.len() {
                assert(c == prev[k]);
                let q = choose|q: int|
                    0 <= q < nodes.drop_last().len() && bucket(ps, nodes.drop_last()[q]).contains(c);
                assert(nodes[q] == nodes.drop_last()[q]);
            } else {
                assert(c == last[k - prev.len()]);
                assert(nodes[nodes.len() - 1] == nodes.last());
            }
        }
    }
}

proof fn lemma_placements_has(item_nodes: Seq<Seq<usize>>, m: nat, p: int, node: usize)
    requires
        0 <= p < m <= item_nodes.len(),
        m <= usize::MAX,
        item_nodes[p].contains(node),
    ensures
        placements(item_nodes, m).contains((node, p as usize)),
    decreases m,
{
    let j = (m - 1) as nat;
    let prev = placements(item_nodes, j);
    let added = item_nodes[j as int].map_values(|nd: usize| (nd, j as usize));
    assert(placements(item_nodes, m) == prev + added);
    if p < j {
        lemma_placements_has(item_nodes, j, p, node);
        let k = choose|k: int| 0 <= k < prev.len() && prev[k] == (node, p as usize);
        assert((prev + added)[k] == prev[k]);
    } else {
        let k = choose|k: int| 0 <= k < item_nodes[p].len() && item_nodes[p][k] == node;
        assert((prev + added)[prev.len() + k] == added[k]);
    }
}

proof fn lemma_bucket_has(ps: Seq<(usize, usize)>, node: usize, item: usize)
    requires
        ps.contains((node, item)),
    ensures
        bucket(ps, node).contains(item),
    decreases ps.len(),
{
    let k = choose|k: int| 0 <= k < ps.len() && ps[k] == (node, item);
    if k < ps.len() - 1 {
        assert(ps.drop_last()[k] == ps[k]);
        lemma_bucket_has(ps.drop_last(), node, item);
        let prev = bucket(ps.drop_last(), node);
        let i = choose|i: int| 0 <= i < prev.len() && prev[i] == item;
        if ps.last().0 == node {
            assert(bucket(ps, node)[i] == prev[i]);
        }
    } else {
        let prev = bucket(ps.drop_last(), node);
        assert(bucket(ps, node)[prev.len() as int] == item);
    }
}

proof fn lemma_others_has(items: Seq<usize>, ids: Seq<u64>, id: u64, c: usize)
    requires
        items.contains(c),
        ids[c as int] != id,
    ensures
        others(items, ids, id).contains(c),
    decreases items.len(),
{
    let k = choose|k: int| 0 <= k < items.len() && items[k] == c;
    let prev = others(items.drop_last(), ids, id);
    if k < items.len() - 1 {
        assert(items.drop_last()[k] == items[k]);
        lemma_others_has(items.drop_last(), ids, id, c);
        let i = choose|i: int| 0 <= i < prev.len() && prev[i] == c;
        if ids[items.last() as int] != id {
            assert(others(items, ids, id)[i] == prev[i]);
        }
    } else {
        assert(others(items, ids, id)[prev.len() as int] == c);
    }
}

proof fn lemma_candidates_has(
    ps: Seq<(usize, usize)>,
    ids: Seq<u64>,
    id: u64,
    nodes: Seq<usize>,
    q: int,
    c: usize,
)
    requires
        0 <= q < nodes.len(),
        others(bucket(ps, nodes[q]), ids, id).contains(c),
    ensures
        candidates_for(ps, ids, id, nodes).contains(c),
    decreases nodes.len(),
{
    let prev = candidates_for(ps, ids, id, nodes.drop_last());
    let last = others(bucket(ps, nodes.last()), ids, id);
    assert(candidates_for(ps, ids, id, nodes) == prev + last);
    if q < nodes.len() - 1 {
        assert(nodes.drop_last()[q] == nodes[q]);
        lemma_candidates_has(ps, ids, id, nodes.drop_last(), q, c);
        let i = choose|i: int| 0 <= i < prev.len() && prev[i] == c;
        assert((prev + last)[i] == prev[i]);
    } else {
        let i = choose|i: int| 0 <= i < last.len() && last[i] == c;
        assert((prev + last)[prev.len() + i] == last[i]);
    }
}

/// No neighbour is missed: each placed item that was placed into one of the
/// query's nodes and whose entity id is not the query's is among the
/// query's candidates.
pub proof fn candidates_include_every_other_neighbour(
    item_nodes: Seq<Seq<usize>>,
    ids: Seq<u64>,
    id: u64,
    nodes: Seq<usize>,
    p: int,
    q: int,
)
    requires
        ids.len() == item_nodes.len(),
        item_nodes.len() <= usize::MAX,
        0 <= p < item_nodes.len(),
        0 <= q < nodes.len(),
        item_nodes[p].contains(nodes[q]),
        ids[p] != id,
    ensures
        candidates_for(placements(item_nodes, item_nodes.len()), ids, id, nodes).contains(
            p as usize,
        ),
{
    let ps = placements(item_nodes, item_nodes.len());
    lemma_placements_has(item_nodes, item_nodes.len(), p, nodes[q]);
    lemma_bucket_has(ps, nodes[q], p as usize);
    lemma_others_has(bucket(ps, nodes[q]), ids, id, p as usize);
    lemma_candidates_has(ps, ids, id, nodes, q, p as usize);
}

} // verus!
