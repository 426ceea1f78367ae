use vstd::prelude::*;

use crate::image_processor::{chan, mean_chan, variance_score, ImageData, RGB};
use crate::prefix_sum_matrix::MAX_SIDE;
use crate::CompressError;

verus! {

/// Arena indices of the four children of a split node.
#[derive(Debug, Clone, Copy, PartialEq, Eq)]
pub struct NodeChildren {
    pub top_left_idx: usize,
    pub top_right_idx: usize,
    pub bottom_left_idx: usize,
    pub bottom_right_idx: usize,
}

/// An inclusive rectangle `top_left`..=`bottom_right` (each `(row, col)`),
/// with the children it was split into, if any.
#[derive(Debug, Clone, Copy, PartialEq, Eq)]
pub struct Node {
    pub top_left: (usize, usize),
    pub bottom_right: (usize, usize),
    pub children: Option<NodeChildren>,
}

impl Node {
    pub open spec fn is_leaf(&self) -> bool {
        self.children is None
    }

    pub open spec fn contains(&self, r: int, c: int) -> bool {
        self.top_left.0 <= r <= self.bottom_right.0 && self.top_left.1 <= c <= self.bottom_right.1
    }

    /// At least two rows and two columns.
    pub open spec fn splittable(&self) -> bool {
        self.top_left.0 < self.bottom_right.0 && self.top_left.1 < self.bottom_right.1
    }

    pub open spec fn is_rect(&self) -> bool {
        self.top_left.0 <= self.bottom_right.0 && self.top_left.1 <= self.bottom_right.1
    }

    /// Same rectangle as `other`.
    pub open spec fn same_rect(&self, other: Node) -> bool {
        self.top_left == other.top_left && self.bottom_right == other.bottom_right
    }

    pub fn leaf(top_left: (usize, usize), bottom_right: (usize, usize)) -> (res: Self)
        ensures
            res == leaf_node(top_left, bottom_right),
    {
        Self { top_left, bottom_right, children: None }
    }

    /// Number of rows, less one.
    fn height(&self) -> (res: u64)
        requires
            self.is_rect(),
        ensures
            res == self.bottom_right.0 - self.top_left.0,
    {
        (self.bottom_right.0 - self.top_left.0) as u64
    }

    /// Number of columns, less one.
    fn width(&self) -> (res: u64)
        requires
            self.is_rect(),
        ensures
            res == self.bottom_right.1 - self.top_left.1,
    {
        (self.bottom_right.1 - self.top_left.1) as u64
    }

    pub fn can_split(&self) -> (res: bool)
        requires
            self.is_rect(),
        ensures
            res == self.splittable(),
    {
        self.width() > 0 && self.height() > 0
    }

    /// The four quadrants of a splittable rectangle, or `None`.
    pub fn split(&self) -> (res: Option<(Node, Node, Node, Node)>)
        requires
            self.is_rect(),
        ensures
            match res {
                None => !self.splittable(),
                Some(q) => self.splittable() && q.0 == quad(*self)[0] && q.1 == quad(*self)[1] && q.2 == quad(
                    *self,
                )[2] && q.3 == quad(*self)[3],
            },
    {
        if !self.can_split() {
            return None;
        }
        let split_h = self.top_left.0 + (self.bottom_right.0 - self.top_left.0) / 2;
        let split_w = self.top_left.1 + (self.bottom_right.1 - self.top_left.1) / 2;
        let top_left_node = Node::leaf(self.top_left, (split_h, split_w));
        let top_right_node = Node::leaf((self.top_left.0, split_w + 1), (split_h, self.bottom_right.1));
        let bottom_left_node = Node::leaf((split_h + 1, self.top_left.1), (self.bottom_right.0, split_w));
        let bottom_right_node = Node::leaf((split_h + 1, split_w + 1), self.bottom_right);
        Some((top_left_node, top_right_node, bottom_left_node, bottom_right_node))
    }
}

pub open spec fn leaf_node(top_left: (usize, usize), bottom_right: (usize, usize)) -> Node {
    Node { top_left, bottom_right, children: None }
}

/// Floor of the midpoint of `a..=b`.
pub open spec fn midpoint(a: usize, b: usize) -> usize {
    ((a + b) / 2) as usize
}

/// The quadrants of a rectangle: top-left, top-right, bottom-left, bottom-right.
pub open spec fn quad(n: Node) -> Seq<Node> {
    let (t, l) = n.top_left;
    let (b, r) = n.bottom_right;
    let mr = midpoint(t, b);
    let mc = midpoint(l, r);
    seq![
        leaf_node((t, l), (mr, mc)),
        leaf_node((t, (mc + 1) as usize), (mr, r)),
        leaf_node(((mr + 1) as usize, l), (b, mc)),
        leaf_node(((mr + 1) as usize, (mc + 1) as usize), (b, r)),
    ]
}

/// Which quadrant of `n` holds pixel `(r, c)`.
pub open spec fn quadrant_of(n: Node, r: int, c: int) -> int {
    (if r <= midpoint(n.top_left.0, n.bottom_right.0) {
        0int
    } else {
        2int
    }) + (if c <= midpoint(n.top_left.1, n.bottom_right.1) {
        0int
    } else {
        1int
    })
}

/// The quadrants are non-empty, lie inside the rectangle, and each pixel of the
/// rectangle lies in exactly one of them.
pub proof fn lemma_quad_partition(n: Node)
    requires
        n.splittable(),
    ensures
        quad(n).len() == 4,
        forall|k: int| 0 <= k < 4 ==> (#[trigger] quad(n)[k]).is_rect() && quad(n)[k].is_leaf(),
        forall|k: int, r: int, c: int| 0 <= k < 4 && #[trigger] quad(n)[k].contains(r, c) ==> n.contains(r, c),
        forall|k: int, r: int, c: int|
            0 <= k < 4 && n.contains(r, c) ==> (#[trigger] quad(n)[k].contains(r, c) <==> k == quadrant_of(n, r, c)),
{
}

/// Number of split nodes.
pub open spec fn internal_count(s: Seq<Node>) -> nat
    decreases s.len(),
{
    if s.len() == 0 {
        0
    } else {
        internal_count(s.drop_last()) + if s.last().is_leaf() {
            0nat
        } else {
            1nat
        }
    }
}

/// Number of leaves.
pub open spec fn leaf_count(s: Seq<Node>) -> nat
    decreases s.len(),
{
    if s.len() == 0 {
        0
    } else {
        leaf_count(s.drop_last()) + if s.last().is_leaf() {
            1nat
        } else {
            0nat
        }
    }
}

pub proof fn lemma_counts_sum(s: Seq<Node>)
    ensures
        leaf_count(s) + internal_count(s) == s.len(),
    decreases s.len(),
{
    if s.len() > 0 {
        lemma_counts_sum(s.drop_last());
    }
}

proof fn lemma_counts_push(s: Seq<Node>, x: Node)
    ensures
        internal_count(s.push(x)) == internal_count(s) + if x.is_leaf() {
            0nat
        } else {
            1nat
        },
        leaf_count(s.push(x)) == leaf_count(s) + if x.is_leaf() {
            1nat
        } else {
            0nat
        },
{
    assert(s.push(x).drop_last() =~= s);
}

proof fn lemma_counts_update(s: Seq<Node>, p: int, x: Node)
    requires
        0 <= p < s.len(),
        s[p].is_leaf(),
        !x.is_leaf(),
    ensures
        internal_count(s.update(p, x)) == internal_count(s) + 1,
        leaf_count(s.update(p, x)) + 1 == leaf_count(s),
    decreases s.len(),
{
    let u = s.update(p, x);
    if p == s.len() - 1 {
        assert(u.drop_last() =~= s.drop_last());
    } else {
        assert(u.drop_last() =~= s.drop_last().update(p, x));
        lemma_counts_update(s.drop_last(), p, x);
    }
}

/// Some leaf holds pixel `(r, c)`.
pub open spec fn covered(nodes: Seq<Node>, r: int, c: int) -> bool {
    exists|i: int| 0 <= i < nodes.len() && nodes[i].is_leaf() && #[trigger] nodes[i].contains(r, c)
}

/// The leaves tile the `h` by `w` image: each pixel lies in exactly one leaf.
pub open spec fn tiles(nodes: Seq<Node>, h: int, w: int) -> bool {
    &&& forall|r: int, c: int| 0 <= r < h && 0 <= c < w ==> #[trigger] covered(nodes, r, c)
    &&& forall|i: int, j: int, r: int, c: int|
        0 <= i < nodes.len() && 0 <= j < nodes.len() && nodes[i].is_leaf() && nodes[j].is_leaf()
            && #[trigger] nodes[i].contains(r, c) && #[trigger] nodes[j].contains(r, c) ==> i == j
}

/// A queued split candidate: a leaf and its variance score.
#[derive(Debug, Clone, Copy, PartialEq, Eq)]
pub struct OrdNode {
    pub node_idx: usize,
    pub variance: u64,
}

impl OrdNode {
    /// The candidate for node `idx`, scored on its rectangle.
    pub fn new(nodes: &Vec<Node>, idx: usize, image_data: &ImageData) -> (res: Self)
        requires
            image_data.wf(),
            idx < nodes@.len(),
            image_data.in_bounds(nodes@[idx as int].top_left, nodes@[idx as int].bottom_right),
        ensures
            res == entry_for(image_data.grid(), idx as int, nodes@[idx as int]),
            res.variance == variance_score(
                image_data.grid(),
                nodes@[idx as int].top_left,
                nodes@[idx as int].bottom_right,
            ),
    {
        let top_left = nodes[idx].top_left;
        let bottom_right = nodes[idx].bottom_right;
        Self { node_idx: idx, variance: image_data.variance(top_left, bottom_right) }
    }
}

/// The queue entry of node `n` at index `idx`.
pub open spec fn entry_for(g: Seq<Seq<RGB<u64>>>, idx: int, n: Node) -> OrdNode {
    OrdNode { node_idx: idx as usize, variance: variance_score(g, n.top_left, n.bottom_right) as u64 }
}

/// Queue `q` with the entry of node `n` (at `idx`) appended if `n` can split.
#[verifier::opaque]
pub open spec fn enqueue(q: Seq<OrdNode>, g: Seq<Seq<RGB<u64>>>, idx: int, n: Node) -> Seq<OrdNode> {
    if n.splittable() {
        q.push(entry_for(g, idx, n))
    } else {
        q
    }
}

/// Every node is a rectangle inside the `h` by `w` image.
pub open spec fn nodes_in_image(nodes: Seq<Node>, h: int, w: int) -> bool {
    forall|i: int|
        0 <= i < nodes.len() ==> (#[trigger] nodes[i]).is_rect() && nodes[i].bottom_right.0 < h
            && nodes[i].bottom_right.1 < w
}

/// Each split node can split, and its children are its quadrants, in order.
pub open spec fn children_wf(nodes: Seq<Node>) -> bool {
    forall|i: int|
        0 <= i < nodes.len() && !(#[trigger] nodes[i]).is_leaf() ==> {
            let ch = nodes[i].children->Some_0;
            &&& nodes[i].splittable()
            &&& i < ch.top_left_idx < nodes.len()
            &&& i < ch.top_right_idx < nodes.len()
            &&& i < ch.bottom_left_idx < nodes.len()
            &&& i < ch.bottom_right_idx < nodes.len()
            &&& nodes[ch.top_left_idx as int].same_rect(quad(nodes[i])[0])
            &&& nodes[ch.top_right_idx as int].same_rect(quad(nodes[i])[1])
            &&& nodes[ch.bottom_left_idx as int].same_rect(quad(nodes[i])[2])
            &&& nodes[ch.bottom_right_idx as int].same_rect(quad(nodes[i])[3])
        }
}

/// The queue holds exactly the splittable leaves, once each, with their scores.
pub open spec fn queue_wf(g: Seq<Seq<RGB<u64>>>, nodes: Seq<Node>, queue: Seq<OrdNode>) -> bool {
    &&& forall|q: int|
        0 <= q < queue.len() ==> {
            let i = (#[trigger] queue[q]).node_idx as int;
            &&& 0 <= i < nodes.len()
            &&& nodes[i].is_leaf()
            &&& nodes[i].splittable()
            &&& queue[q].variance == variance_score(g, nodes[i].top_left, nodes[i].bottom_right)
        }
    &&& forall|q1: int, q2: int|
        0 <= q1 < queue.len() && 0 <= q2 < queue.len() && #[trigger] queue[q1].node_idx == #[trigger] queue[q2].node_idx
            ==> q1 == q2
    &&& forall|i: int|
        0 <= i < nodes.len() && (#[trigger] nodes[i]).is_leaf() && nodes[i].splittable() ==> exists|q: int|
            0 <= q < queue.len() && #[trigger] queue[q].node_idx == i
}

/// The arena and queue of a tree over grid `g` of `h` rows and `w` columns.
#[verifier::opaque]
pub open spec fn tree_wf(g: Seq<Seq<RGB<u64>>>, h: int, w: int, nodes: Seq<Node>, queue: Seq<OrdNode>) -> bool {
    &&& nodes.len() >= 1
    &&& nodes[0].same_rect(leaf_node((0, 0), ((h - 1) as usize, (w - 1) as usize)))
    &&& nodes_in_image(nodes, h, w)
    &&& children_wf(nodes)
    &&& nodes.len() == 1 + 4 * internal_count(nodes)
    &&& tiles(nodes, h, w)
    &&& queue_wf(g, nodes, queue)
}

/// Position `m` holds a largest score of `q`, and no earlier position does.
pub open spec fn is_first_max(q: Seq<OrdNode>, m: int) -> bool {
    &&& 0 <= m < q.len()
    &&& forall|j: int| 0 <= j < q.len() ==> (#[trigger] q[j]).variance <= q[m].variance
    &&& forall|j: int| 0 <= j < m ==> (#[trigger] q[j]).variance < q[m].variance
}

/// The first position of a largest score: the entry that the next step splits.
pub open spec fn first_max(q: Seq<OrdNode>) -> int {
    choose|m: int| is_first_max(q, m)
}

pub proof fn lemma_first_max(q: Seq<OrdNode>, m: int)
    requires
        is_first_max(q, m),
    ensures
        first_max(q) == m,
{
    let f = first_max(q);
    assert(is_first_max(q, f));
    if f < m {
        assert(q[f].variance < q[m].variance);
    } else if m < f {
        assert(q[m].variance < q[f].variance);
    }
}

/// Some leaf of the arena can still be split.
pub open spec fn has_splittable_leaf(nodes: Seq<Node>) -> bool {
    exists|i: int| 0 <= i < nodes.len() && (#[trigger] nodes[i]).is_leaf() && nodes[i].splittable()
}

/// Node `n` marked split, with its children at `first..first + 4`.
pub open spec fn with_children(n: Node, first: int) -> Node {
    Node {
        top_left: n.top_left,
        bottom_right: n.bottom_right,
        children: Some(
            NodeChildren {
                top_left_idx: first as usize,
                top_right_idx: (first + 1) as usize,
                bottom_left_idx: (first + 2) as usize,
                bottom_right_idx: (first + 3) as usize,
            },
        ),
    }
}

/// The arena after node `p` is split: `p` marked split, its quadrants appended.
pub open spec fn nodes_after_split(nodes: Seq<Node>, p: int) -> Seq<Node> {
    let c = quad(nodes[p]);
    nodes.update(p, with_children(nodes[p], nodes.len() as int)).push(c[0]).push(c[1]).push(c[2]).push(c[3])
}

/// The node that the next step splits.
pub open spec fn split_target(queue: Seq<OrdNode>) -> int {
    queue[first_max(queue)].node_idx as int
}

/// The queue after a step: the chosen entry removed, then each splittable
/// quadrant's entry appended in quadrant order.
pub open spec fn queue_after_split(g: Seq<Seq<RGB<u64>>>, nodes: Seq<Node>, queue: Seq<OrdNode>) -> Seq<OrdNode> {
    let n = nodes.len() as int;
    let c = quad(nodes[split_target(queue)]);
    enqueue(
        enqueue(enqueue(enqueue(queue.remove(first_max(queue)), g, n, c[0]), g, n + 1, c[1]), g, n + 2, c[2]),
        g,
        n + 3,
        c[3],
    )
}

/// The queue is empty exactly when no leaf can split.
pub proof fn lemma_queue_empty(g: Seq<Seq<RGB<u64>>>, h: int, w: int, nodes: Seq<Node>, queue: Seq<OrdNode>)
    requires
        tree_wf(g, h, w, nodes, queue),
    ensures
        queue.len() == 0 <==> !has_splittable_leaf(nodes),
{
    reveal(tree_wf);
    if queue.len() > 0 {
        let i = queue[0].node_idx as int;
        assert(nodes[i].is_leaf() && nodes[i].splittable());
    }
    if has_splittable_leaf(nodes) {
        let i = choose|i: int| 0 <= i < nodes.len() && (#[trigger] nodes[i]).is_leaf() && nodes[i].splittable();
        let q = choose|q: int| 0 <= q < queue.len() && #[trigger] queue[q].node_idx == i;
    }
}

/// Greedy choice: a step splits a splittable leaf whose score is the largest
/// among all splittable leaves.
pub proof fn lemma_greedy_choice(g: Seq<Seq<RGB<u64>>>, h: int, w: int, nodes: Seq<Node>, queue: Seq<OrdNode>)
    requires
        tree_wf(g, h, w, nodes, queue),
        queue.len() > 0,
    ensures
        ({
            let p = split_target(queue);
            &&& 0 <= p < nodes.len()
            &&& nodes[p].is_leaf()
            &&& nodes[p].splittable()
            &&& forall|i: int|
                0 <= i < nodes.len() && (#[trigger] nodes[i]).is_leaf() && nodes[i].splittable() ==> variance_score(
                    g,
                    nodes[i].top_left,
                    nodes[i].bottom_right,
                ) <= variance_score(g, nodes[p].top_left, nodes[p].bottom_right)
        }),
{
    reveal(tree_wf);
    lemma_first_max_exists(queue);
    let m = first_max(queue);
    let p = split_target(queue);
    assert(queue[m].node_idx == p);
    assert forall|i: int|
        0 <= i < nodes.len() && (#[trigger] nodes[i]).is_leaf() && nodes[i].splittable() implies variance_score(
        g,
        nodes[i].top_left,
        nodes[i].bottom_right,
    ) <= variance_score(g, nodes[p].top_left, nodes[p].bottom_right) by {
        let q = choose|q: int| 0 <= q < queue.len() && #[trigger] queue[q].node_idx == i;
        assert(queue[q].variance <= queue[m].variance);
    }
}

/// A non-empty queue has a first largest entry.
pub proof fn lemma_first_max_exists(q: Seq<OrdNode>)
    requires
        q.len() > 0,
    ensures
        is_first_max(q, first_max(q)),
    decreases q.len(),
{
    if q.len() == 1 {
        assert(is_first_max(q, 0));
    } else {
        let q0 = q.drop_last();
        lemma_first_max_exists(q0);
        let m0 = first_max(q0);
        assert(q0[m0] == q[m0]);
        if q.last().variance > q[m0].variance {
            assert forall|j: int| 0 <= j < q.len() implies (#[trigger] q[j]).variance <= q[q.len() - 1].variance by {
                if j < q.len() - 1 {
                    assert(q0[j] == q[j]);
                }
            }
            assert forall|j: int| 0 <= j < q.len() - 1 implies (#[trigger] q[j]).variance < q[q.len() - 1].variance by {
                assert(q0[j] == q[j]);
            }
            assert(is_first_max(q, q.len() - 1));
        } else {
            assert forall|j: int| 0 <= j < q.len() implies (#[trigger] q[j]).variance <= q[m0].variance by {
                if j < q.len() - 1 {
                    assert(q0[j] == q[j]);
                }
            }
            assert forall|j: int| 0 <= j < m0 implies (#[trigger] q[j]).variance < q[m0].variance by {
                assert(q0[j] == q[j]);
            }
            assert(is_first_max(q, m0));
        }
    }
}

/// Splitting leaf `p` keeps the arena well formed, tiling included, and adds
/// one split node.
proof fn lemma_split_nodes(h: int, w: int, nodes: Seq<Node>, p: int)
    requires
        nodes.len() >= 1,
        nodes[0].same_rect(leaf_node((0, 0), ((h - 1) as usize, (w - 1) as usize))),
        nodes_in_image(nodes, h, w),
        children_wf(nodes),
        nodes.len() == 1 + 4 * internal_count(nodes),
        tiles(nodes, h, w),
        0 <= p < nodes.len(),
        nodes[p].is_leaf(),
        nodes[p].splittable(),
        nodes.len() + 4 <= usize::MAX,
    ensures
        ({
            let s = nodes_after_split(nodes, p);
            &&& s.len() >= 1
            &&& s[0].same_rect(leaf_node((0, 0), ((h - 1) as usize, (w - 1) as usize)))
            &&& nodes_in_image(s, h, w)
            &&& children_wf(s)
            &&& internal_count(s) == internal_count(nodes) + 1
            &&& s.len() == 1 + 4 * internal_count(s)
            &&& tiles(s, h, w)
        }),
{
    let n = nodes.len() as int;
    let big = nodes[p];
    let c = quad(big);
    let x = with_children(big, n);
    let u = nodes.update(p, x);
    let s = nodes_after_split(nodes, p);
    lemma_quad_partition(big);
    lemma_counts_update(nodes, p, x);
    lemma_counts_push(u, c[0]);
    lemma_counts_push(u.push(c[0]), c[1]);
    lemma_counts_push(u.push(c[0]).push(c[1]), c[2]);
    lemma_counts_push(u.push(c[0]).push(c[1]).push(c[2]), c[3]);
    assert(s.len() == n + 4);
    assert forall|i: int| 0 <= i < n && i != p implies #[trigger] s[i] == nodes[i] by {}
    assert(s[p] == x);
    assert forall|k: int| 0 <= k < 4 implies #[trigger] s[n + k] == c[k] by {}
    assert forall|i: int| 0 <= i < s.len() implies (#[trigger] s[i]).is_rect() && s[i].bottom_right.0 < h
        && s[i].bottom_right.1 < w by {
        if i < n {
            assert(nodes[i].is_rect());
        } else {
            assert(s[i] == c[i - n]);
        }
    }
    assert forall|i: int| 0 <= i < s.len() && !(#[trigger] s[i]).is_leaf() implies {
        let ch = s[i].children->Some_0;
        &&& s[i].splittable()
        &&& i < ch.top_left_idx < s.len()
        &&& i < ch.top_right_idx < s.len()
        &&& i < ch.bottom_left_idx < s.len()
        &&& i < ch.bottom_right_idx < s.len()
        &&& s[ch.top_left_idx as int].same_rect(quad(s[i])[0])
        &&& s[ch.top_right_idx as int].same_rect(quad(s[i])[1])
        &&& s[ch.bottom_left_idx as int].same_rect(quad(s[i])[2])
        &&& s[ch.bottom_right_idx as int].same_rect(quad(s[i])[3])
    } by {
        if i == p {
            assert(quad(s[p]) =~= c);
            assert(s[n] == c[0]);
            assert(s[n + 1] == c[1]);
            assert(s[n + 2] == c[2]);
            assert(s[n + 3] == c[3]);
        } else if i < n {
            let ch = nodes[i].children->Some_0;
            assert(!nodes[i].is_leaf());
            assert(s[ch.top_left_idx as int].same_rect(nodes[ch.top_left_idx as int]));
            assert(s[ch.top_right_idx as int].same_rect(nodes[ch.top_right_idx as int]));
            assert(s[ch.bottom_left_idx as int].same_rect(nodes[ch.bottom_left_idx as int]));
            assert(s[ch.bottom_right_idx as int].same_rect(nodes[ch.bottom_right_idx as int]));
        } else {
            assert(s[i] == c[i - n]);
        }
    }
    // A leaf of the new arena that holds (r, c) is an old leaf other than p,
    // or the quadrant of p that holds (r, c).
    assert forall|i: int, r: int, cc: int|
        0 <= i < s.len() && s[i].is_leaf() && #[trigger] s[i].contains(r, cc) implies (i < n && i != p
        && nodes[i].is_leaf() && nodes[i].contains(r, cc)) || (n <= i && big.contains(r, cc) && i - n
        == quadrant_of(big, r, cc)) by {
        if i >= n {
            assert(s[i] == c[i - n]);
            assert(c[i - n].contains(r, cc));
        }
    }
    assert forall|r: int, cc: int| 0 <= r < h && 0 <= cc < w implies #[trigger] covered(s, r, cc) by {
        assert(covered(nodes, r, cc));
        let i = choose|i: int| 0 <= i < nodes.len() && nodes[i].is_leaf() && #[trigger] nodes[i].contains(r, cc);
        if i == p {
            let k = quadrant_of(big, r, cc);
            assert(c[k].contains(r, cc));
            assert(s[n + k] == c[k]);
            assert(s[n + k].is_leaf() && s[n + k].contains(r, cc));
        } else {
            assert(s[i] == nodes[i]);
            assert(s[i].contains(r, cc));
        }
    }
    assert forall|i: int, j: int, r: int, cc: int|
        0 <= i < s.len() && 0 <= j < s.len() && s[i].is_leaf() && s[j].is_leaf() && #[trigger] s[i].contains(r, cc)
            && #[trigger] s[j].contains(r, cc) implies i == j by {
        if big.contains(r, cc) {
            assert(nodes[p].contains(r, cc));
        }
        if i < n && j < n {
            assert(nodes[i].contains(r, cc) && nodes[j].contains(r, cc));
        }
    }
}

pub proof fn lemma_enqueue(q: Seq<OrdNode>, g: Seq<Seq<RGB<u64>>>, idx: int, n: Node)
    ensures
        enqueue(q, g, idx, n).len() == q.len() + if n.splittable() {
            1int
        } else {
            0int
        },
        forall|z: int| 0 <= z < q.len() ==> #[trigger] enqueue(q, g, idx, n)[z] == q[z],
        n.splittable() ==> enqueue(q, g, idx, n)[q.len() as int] == entry_for(g, idx, n),
{
    reveal(enqueue);
}

/// `q` is `q0` followed by the entries of the splittable quadrants among
/// `c[0..k]`, which sit at arena indices `n..n + k`.
spec fn appended_ok(q0: Seq<OrdNode>, q: Seq<OrdNode>, g: Seq<Seq<RGB<u64>>>, n: int, c: Seq<Node>, k: int) -> bool {
    &&& q.len() >= q0.len()
    &&& forall|z: int| 0 <= z < q0.len() ==> #[trigger] q[z] == q0[z]
    &&& forall|a: int|
        q0.len() <= a < q.len() ==> {
            let i = (#[trigger] q[a]).node_idx as int;
            &&& n <= i < n + k
            &&& c[i - n].splittable()
            &&& q[a] == entry_for(g, i, c[i - n])
        }
    &&& forall|a1: int, a2: int|
        q0.len() <= a1 < a2 < q.len() ==> (#[trigger] q[a1]).node_idx < (#[trigger] q[a2]).node_idx
    &&& forall|j: int| 0 <= j < k && (#[trigger] c[j]).splittable() ==> exists|a: int|
        q0.len() <= a < q.len() && #[trigger] q[a].node_idx == n + j
}

/// Appending the entry of quadrant `k`, if it can split, extends the
/// appended part by that quadrant.
#[verifier::spinoff_prover]
proof fn lemma_appended_step(q0: Seq<OrdNode>, q: Seq<OrdNode>, g: Seq<Seq<RGB<u64>>>, n: int, c: Seq<Node>, k: int)
    requires
        appended_ok(q0, q, g, n, c, k),
        0 <= k < c.len(),
        n >= 0,
        n + 4 <= usize::MAX,
        k < 4,
    ensures
        appended_ok(q0, enqueue(q, g, n + k, c[k]), g, n, c, k + 1),
{
    let r = enqueue(q, g, n + k, c[k]);
    lemma_enqueue(q, g, n + k, c[k]);
    assert forall|a: int| q0.len() <= a < r.len() implies {
        let i = (#[trigger] r[a]).node_idx as int;
        &&& n <= i < n + k + 1
        &&& c[i - n].splittable()
        &&& r[a] == entry_for(g, i, c[i - n])
    } by {
        if a < q.len() {
            assert(r[a] == q[a]);
        }
    }
    assert forall|a1: int, a2: int| q0.len() <= a1 < a2 < r.len() implies (#[trigger] r[a1]).node_idx
        < (#[trigger] r[a2]).node_idx by {
        assert(r[a1] == q[a1]);
        if a2 < q.len() {
            assert(r[a2] == q[a2]);
        }
    }
    assert forall|j: int| 0 <= j < k + 1 && (#[trigger] c[j]).splittable() implies exists|a: int|
        q0.len() <= a < r.len() && #[trigger] r[a].node_idx == n + j by {
        if j < k {
            let a = choose|a: int| q0.len() <= a < q.len() && #[trigger] q[a].node_idx == n + j;
            assert(r[a] == q[a]);
        } else {
            assert(r[q.len() as int].node_idx == n + j);
        }
    }
}

/// The entries left after removing position `m` keep their order and their
/// distinct node indices, none of them the removed one's.
proof fn lemma_removed(queue: Seq<OrdNode>, m: int)
    requires
        0 <= m < queue.len(),
        forall|q1: int, q2: int|
            0 <= q1 < queue.len() && 0 <= q2 < queue.len() && #[trigger] queue[q1].node_idx
                == #[trigger] queue[q2].node_idx ==> q1 == q2,
    ensures
        forall|a: int|
            0 <= a < queue.remove(m).len() ==> #[trigger] queue.remove(m)[a] == queue[if a < m {
                a
            } else {
                a + 1
            }] && queue.remove(m)[a].node_idx != queue[m].node_idx,
        forall|a1: int, a2: int|
            0 <= a1 < queue.remove(m).len() && 0 <= a2 < queue.remove(m).len() && #[trigger] queue.remove(
                m,
            )[a1].node_idx == #[trigger] queue.remove(m)[a2].node_idx ==> a1 == a2,
{
    let q0 = queue.remove(m);
    assert forall|a: int| 0 <= a < q0.len() implies #[trigger] q0[a] == queue[if a < m {
        a
    } else {
        a + 1
    }] && q0[a].node_idx != queue[m].node_idx by {
        let b = if a < m {
            a
        } else {
            a + 1
        };
        assert(queue[b].node_idx != queue[m].node_idx);
    }
    assert forall|a1: int, a2: int|
        0 <= a1 < q0.len() && 0 <= a2 < q0.len() && #[trigger] q0[a1].node_idx == #[trigger] q0[a2].node_idx implies a1
        == a2 by {
        let b1 = if a1 < m {
            a1
        } else {
            a1 + 1
        };
        let b2 = if a2 < m {
            a2
        } else {
            a2 + 1
        };
        assert(q0[a1] == queue[b1]);
        assert(q0[a2] == queue[b2]);
    }
}

/// After a step the queue again holds exactly the splittable leaves.
#[verifier::spinoff_prover]
#[verifier::rlimit(40)]
proof fn lemma_split_queue(g: Seq<Seq<RGB<u64>>>, nodes: Seq<Node>, queue: Seq<OrdNode>)
    requires
        queue_wf(g, nodes, queue),
        queue.len() > 0,
        nodes.len() + 4 <= usize::MAX,
        forall|k: int|
            0 <= k < 4 ==> 0 <= #[trigger] variance_score(
                g,
                quad(nodes[split_target(queue)])[k].top_left,
                quad(nodes[split_target(queue)])[k].bottom_right,
            ) <= u64::MAX,
    ensures
        queue_wf(g, nodes_after_split(nodes, split_target(queue)), queue_after_split(g, nodes, queue)),
{
    lemma_first_max_exists(queue);
    let m = first_max(queue);
    let p = split_target(queue);
    let n = nodes.len() as int;
    let big = nodes[p];
    let c = quad(big);
    let s = nodes_after_split(nodes, p);
    assert(nodes[p].is_leaf() && nodes[p].splittable());
    lemma_quad_partition(big);
    assert forall|i: int| 0 <= i < n && i != p implies #[trigger] s[i] == nodes[i] by {}
    assert forall|k: int| 0 <= k < 4 implies #[trigger] s[n + k] == c[k] by {}
    let q0 = queue.remove(m);
    let q1 = enqueue(q0, g, n, c[0]);
    let q2 = enqueue(q1, g, n + 1, c[1]);
    let q3 = enqueue(q2, g, n + 2, c[2]);
    let q4 = enqueue(q3, g, n + 3, c[3]);
    assert(q4 == queue_after_split(g, nodes, queue));
    assert(appended_ok(q0, q0, g, n, c, 0));
    lemma_appended_step(q0, q0, g, n, c, 0);
    lemma_appended_step(q0, q1, g, n, c, 1);
    lemma_appended_step(q0, q2, g, n, c, 2);
    lemma_appended_step(q0, q3, g, n, c, 3);
    assert(appended_ok(q0, q4, g, n, c, 4));
    lemma_removed(queue, m);
    assert forall|a: int| 0 <= a < q4.len() implies {
        let i = (#[trigger] q4[a]).node_idx as int;
        &&& 0 <= i < s.len()
        &&& s[i].is_leaf()
        &&& s[i].splittable()
        &&& q4[a].variance == variance_score(g, s[i].top_left, s[i].bottom_right)
    } by {
        if a < q0.len() {
            assert(q4[a] == q0[a]);
        } else {
            let i = q4[a].node_idx as int;
            assert(0 <= variance_score(g, c[i - n].top_left, c[i - n].bottom_right) <= u64::MAX);
        }
    }
    assert forall|a1: int, a2: int|
        0 <= a1 < q4.len() && 0 <= a2 < q4.len() && #[trigger] q4[a1].node_idx == #[trigger] q4[a2].node_idx implies a1
        == a2 by {
        if a1 < q0.len() && a2 < q0.len() {
            assert(q4[a1] == q0[a1] && q4[a2] == q0[a2]);
        } else if a1 < q0.len() {
            assert(q4[a1] == q0[a1]);
        } else if a2 < q0.len() {
            assert(q4[a2] == q0[a2]);
        } else if a1 < a2 {
            assert(q4[a1].node_idx < q4[a2].node_idx);
        } else if a2 < a1 {
            assert(q4[a2].node_idx < q4[a1].node_idx);
        }
    }
    assert forall|i: int| 0 <= i < s.len() && (#[trigger] s[i]).is_leaf() && s[i].splittable() implies exists|q: int|
        0 <= q < q4.len() && #[trigger] q4[q].node_idx == i by {
        if i < n {
            assert(i != p);
            assert(nodes[i] == s[i]);
            let b = choose|b: int| 0 <= b < queue.len() && #[trigger] queue[b].node_idx == i;
            assert(b != m);
            let a = if b < m {
                b
            } else {
                b - 1
            };
            assert(q0[a] == queue[b]);
            assert(q4[a] == q0[a]);
        } else {
            assert(c[i - n] == s[i]);
            assert(c[i - n].splittable());
        }
    }
}

/// The leaf that holds pixel `(r, c)`.
pub open spec fn leaf_at(nodes: Seq<Node>, r: int, c: int) -> int {
    choose|i: int| 0 <= i < nodes.len() && nodes[i].is_leaf() && #[trigger] nodes[i].contains(r, c)
}

/// Pixel `(r, c)` lies on the first or last row or column of `n`.
pub open spec fn on_border(n: Node, r: int, c: int) -> bool {
    r == n.top_left.0 || r == n.bottom_right.0 || c == n.top_left.1 || c == n.bottom_right.1
}

/// The mean color of a node's rectangle, channel by channel.
pub open spec fn mean_color(g: Seq<Seq<RGB<u64>>>, n: Node) -> RGB<u8> {
    RGB {
        r: mean_chan(g, 0, n.top_left, n.bottom_right) as u8,
        g: mean_chan(g, 1, n.top_left, n.bottom_right) as u8,
        b: mean_chan(g, 2, n.top_left, n.bottom_right) as u8,
    }
}

/// Pixel `(r, c)` of a leaf painted `color`: the outline color on its border
/// when an outline is asked for, else `color`.
pub open spec fn paint(n: Node, color: RGB<u8>, outline: Option<RGB<u8>>, r: int, c: int) -> RGB<u8> {
    match outline {
        Some(o) => if on_border(n, r, c) {
            o
        } else {
            color
        },
        None => color,
    }
}

/// Position of pixel `(r, c)` in a row-major buffer of rows of `w` pixels.
pub open spec fn pixel_index(w: int, r: int, c: int) -> int {
    r * w + c
}

/// The rendered image, row-major: each pixel painted with the mean color of
/// the leaf that holds it.
pub open spec fn render_view(
    g: Seq<Seq<RGB<u64>>>,
    h: int,
    w: int,
    nodes: Seq<Node>,
    outline: Option<RGB<u8>>,
) -> Seq<RGB<u8>> {
    Seq::new(
        (h * w) as nat,
        |idx: int|
            {
                let r = idx / w;
                let c = idx % w;
                let n = nodes[leaf_at(nodes, r, c)];
                paint(n, mean_color(g, n), outline, r, c)
            },
    )
}

proof fn lemma_pixel_index(w: int, h: int, r: int, c: int)
    requires
        0 <= r < h,
        0 <= c < w,
    ensures
        0 <= pixel_index(w, r, c) < h * w,
        pixel_index(w, r, c) / w == r,
        pixel_index(w, r, c) % w == c,
{
    assert(0 <= r * w + c < h * w) by (nonlinear_arith)
        requires
            0 <= r < h,
            0 <= c < w,
    ;
    vstd::arithmetic::div_mod::lemma_fundamental_div_mod_converse(r * w + c, w, r, c);
}

/// Paints the pixels of `node` into a row-major buffer of `width` columns.
fn fill_leaf(
    buf: &mut Vec<RGB<u8>>,
    width: usize,
    height: usize,
    node: &Node,
    color: RGB<u8>,
    outline: Option<RGB<u8>>,
)
    requires
        old(buf)@.len() == height * width,
        width <= MAX_SIDE,
        height <= MAX_SIDE,
        node.is_rect(),
        node.bottom_right.0 < height,
        node.bottom_right.1 < width,
    ensures
        final(buf)@.len() == old(buf)@.len(),
        forall|r: int, c: int|
            #[trigger] node.contains(r, c) ==> final(buf)@[pixel_index(width as int, r, c)] == paint(
                *node,
                color,
                outline,
                r,
                c,
            ),
        forall|r: int, c: int|
            0 <= r < height && 0 <= c < width && !node.contains(r, c) ==> #[trigger] final(buf)@[pixel_index(
                width as int,
                r,
                c,
            )] == old(buf)@[pixel_index(width as int, r, c)],
{
    let ghost b0 = buf@;
    let ghost w = width as int;
    let (top, left) = node.top_left;
    let (bottom, right) = node.bottom_right;
    let mut r = top;
    while r <= bottom
        invariant
            buf@.len() == b0.len(),
            b0.len() == height * width,
            w == width,
            width <= MAX_SIDE,
            height <= MAX_SIDE,
            node.top_left == (top, left),
            node.bottom_right == (bottom, right),
            top <= r <= bottom + 1,
            left <= right < width,
            bottom < height,
            forall|rr: int, cc: int|
                top <= rr < r && left <= cc <= right ==> #[trigger] buf@[pixel_index(w, rr, cc)] == paint(
                    *node,
                    color,
                    outline,
                    rr,
                    cc,
                ),
            forall|rr: int, cc: int|
                0 <= rr < height && 0 <= cc < width && !(top <= rr < r && left <= cc <= right)
                    ==> #[trigger] buf@[pixel_index(w, rr, cc)] == b0[pixel_index(w, rr, cc)],
        decreases bottom + 1 - r,
    {
        let mut c = left;
        while c <= right
            invariant
                buf@.len() == b0.len(),
                b0.len() == height * width,
                w == width,
                width <= MAX_SIDE,
                height <= MAX_SIDE,
                node.top_left == (top, left),
                node.bottom_right == (bottom, right),
                top <= r <= bottom,
                left <= c <= right + 1,
                left <= right < width,
                bottom < height,
                forall|rr: int, cc: int|
                    (top <= rr < r && left <= cc <= right) || (rr == r && left <= cc < c)
                        ==> #[trigger] buf@[pixel_index(w, rr, cc)] == paint(*node, color, outline, rr, cc),
                forall|rr: int, cc: int|
                    0 <= rr < height && 0 <= cc < width && !((top <= rr < r && left <= cc <= right) || (rr == r
                        && left <= cc < c)) ==> #[trigger] buf@[pixel_index(w, rr, cc)] == b0[pixel_index(w, rr, cc)],
            decreases right + 1 - c,
        {
            proof {
                lemma_pixel_index(w, height as int, r as int, c as int);
                assert(height * width <= MAX_SIDE * MAX_SIDE) by (nonlinear_arith)
                    requires
                        height <= MAX_SIDE,
                        width <= MAX_SIDE,
                ;
                assert((r as int) * (width as int) <= (r as int) * (width as int) + (c as int) < height * width);
            }
            let idx = r * width + c;
            let v = match outline {
                Some(o) => if r == top || r == bottom || c == left || c == right {
                    o
                } else {
                    color
                },
                None => color,
            };
            buf.set(idx, v);
            proof {
                assert forall|rr: int, cc: int|
                    0 <= rr < height && 0 <= cc < width && pixel_index(w, rr, cc) == idx implies rr == r && cc
                    == c by {
                    lemma_pixel_index(w, height as int, rr, cc);
                }
                assert forall|rr: int, cc: int|
                    (top <= rr < r && left <= cc <= right) || (rr == r && left <= cc < c + 1)
                        implies #[trigger] buf@[pixel_index(w, rr, cc)] == paint(*node, color, outline, rr, cc) by {
                    lemma_pixel_index(w, height as int, rr, cc);
                }
                assert forall|rr: int, cc: int|
                    0 <= rr < height && 0 <= cc < width && !((top <= rr < r && left <= cc <= right) || (rr == r
                        && left <= cc < c + 1)) implies #[trigger] buf@[pixel_index(w, rr, cc)] == b0[pixel_index(
                    w,
                    rr,
                    cc,
                )] by {
                    lemma_pixel_index(w, height as int, rr, cc);
                }
            }
            c += 1;
        }
        r += 1;
    }
}

/// Every pixel of each leaf among the first `i` nodes holds that leaf's paint.
pub open spec fn painted_upto(
    g: Seq<Seq<RGB<u64>>>,
    w: int,
    nodes: Seq<Node>,
    outline: Option<RGB<u8>>,
    i: int,
    buf: Seq<RGB<u8>>,
) -> bool {
    forall|j: int, r: int, c: int|
        0 <= j < i && nodes[j].is_leaf() && #[trigger] nodes[j].contains(r, c) ==> buf[pixel_index(w, r, c)]
            == paint(nodes[j], mean_color(g, nodes[j]), outline, r, c)
}

proof fn lemma_render_step(
    g: Seq<Seq<RGB<u64>>>,
    h: int,
    w: int,
    nodes: Seq<Node>,
    outline: Option<RGB<u8>>,
    i: int,
    b1: Seq<RGB<u8>>,
    b2: Seq<RGB<u8>>,
)
    requires
        nodes_in_image(nodes, h, w),
        tiles(nodes, h, w),
        0 <= i < nodes.len(),
        nodes[i].is_leaf(),
        painted_upto(g, w, nodes, outline, i, b1),
        forall|r: int, c: int|
            #[trigger] nodes[i].contains(r, c) ==> b2[pixel_index(w, r, c)] == paint(
                nodes[i],
                mean_color(g, nodes[i]),
                outline,
                r,
                c,
            ),
        forall|r: int, c: int|
            0 <= r < h && 0 <= c < w && !nodes[i].contains(r, c) ==> #[trigger] b2[pixel_index(w, r, c)]
                == b1[pixel_index(w, r, c)],
    ensures
        painted_upto(g, w, nodes, outline, i + 1, b2),
{
    assert forall|j: int, r: int, c: int|
        0 <= j < i + 1 && nodes[j].is_leaf() && #[trigger] nodes[j].contains(r, c) implies b2[pixel_index(w, r, c)]
        == paint(nodes[j], mean_color(g, nodes[j]), outline, r, c) by {
        if j < i {
            assert(nodes[j].is_rect() && nodes[j].bottom_right.0 < h && nodes[j].bottom_right.1 < w);
            if nodes[i].contains(r, c) {
                assert(i == j);
            }
            assert(b2[pixel_index(w, r, c)] == b1[pixel_index(w, r, c)]);
        }
    }
}

/// A step keeps the tree well formed and adds one split node.
proof fn lemma_step_wf(g: Seq<Seq<RGB<u64>>>, h: int, w: int, nodes: Seq<Node>, queue: Seq<OrdNode>)
    requires
        tree_wf(g, h, w, nodes, queue),
        queue.len() > 0,
        nodes.len() + 4 <= usize::MAX,
        forall|k: int|
            0 <= k < 4 ==> 0 <= #[trigger] variance_score(
                g,
                quad(nodes[split_target(queue)])[k].top_left,
                quad(nodes[split_target(queue)])[k].bottom_right,
            ) <= u64::MAX,
    ensures
        tree_wf(g, h, w, nodes_after_split(nodes, split_target(queue)), queue_after_split(g, nodes, queue)),
        internal_count(nodes_after_split(nodes, split_target(queue))) == internal_count(nodes) + 1,
{
    reveal(tree_wf);
    lemma_first_max_exists(queue);
    let p = split_target(queue);
    assert(nodes[p].is_leaf() && nodes[p].splittable());
    lemma_split_nodes(h, w, nodes, p);
    lemma_split_queue(g, nodes, queue);
}

/// The entry at position `m` names a splittable leaf inside the image.
proof fn lemma_entry_facts(g: Seq<Seq<RGB<u64>>>, h: int, w: int, nodes: Seq<Node>, queue: Seq<OrdNode>, m: int)
    requires
        tree_wf(g, h, w, nodes, queue),
        0 <= m < queue.len(),
    ensures
        ({
            let p = queue[m].node_idx as int;
            &&& 0 <= p < nodes.len()
            &&& nodes[p].is_leaf()
            &&& nodes[p].splittable()
            &&& nodes[p].bottom_right.0 < h
            &&& nodes[p].bottom_right.1 < w
        }),
{
    reveal(tree_wf);
    let p = queue[m].node_idx as int;
    assert(nodes[p].is_rect());
}

/// Alpha value of every pixel of a 4-channel render.
pub const MAX_ALPHA: u8 = 100;

/// Channel `k` (0 = red, 1 = green, 2 = blue) of a narrow pixel.
pub open spec fn chan8(p: RGB<u8>, k: int) -> u8 {
    if k == 0 {
        p.r
    } else if k == 1 {
        p.g
    } else {
        p.b
    }
}

/// Pixels as bytes, three per pixel: red, green, blue.
pub open spec fn rgb_bytes(px: Seq<RGB<u8>>) -> Seq<u8> {
    Seq::new(3 * px.len(), |j: int| chan8(px[j / 3], j % 3))
}

/// Pixels as bytes, four per pixel: red, green, blue, then `MAX_ALPHA`.
pub open spec fn rgba_bytes(px: Seq<RGB<u8>>) -> Seq<u8> {
    Seq::new(
        4 * px.len(),
        |j: int|
            if j % 4 == 3 {
                MAX_ALPHA
            } else {
                chan8(px[j / 4], j % 4)
            },
    )
}

fn to_rgb_bytes(px: &Vec<RGB<u8>>) -> (res: Vec<u8>)
    ensures
        res@ == rgb_bytes(px@),
{
    let mut out: Vec<u8> = Vec::new();
    let mut i: usize = 0;
    while i < px.len()
        invariant
            i <= px@.len(),
            out@.len() == 3 * i,
            forall|j: int| 0 <= j < 3 * i ==> #[trigger] out@[j] == chan8(px@[j / 3], j % 3),
        decreases px.len() - i,
    {
        let p = px[i];
        out.push(p.r);
        out.push(p.g);
        out.push(p.b);
        i += 1;
    }
    assert(out@ =~= rgb_bytes(px@));
    out
}

fn to_rgba_bytes(px: &Vec<RGB<u8>>) -> (res: Vec<u8>)
    ensures
        res@ == rgba_bytes(px@),
{
    let mut out: Vec<u8> = Vec::new();
    let mut i: usize = 0;
    while i < px.len()
        invariant
            i <= px@.len(),
            out@.len() == 4 * i,
            forall|j: int|
                0 <= j < 4 * i ==> #[trigger] out@[j] == if j % 4 == 3 {
                    MAX_ALPHA
                } else {
                    chan8(px@[j / 4], j % 4)
                },
        decreases px.len() - i,
    {
        let p = px[i];
        out.push(p.r);
        out.push(p.g);
        out.push(p.b);
        out.push(MAX_ALPHA);
        i += 1;
    }
    assert(out@ =~= rgba_bytes(px@));
    out
}

/// An adaptive quadtree over an image, refined greedily by variance score.
pub struct QuadTree {
    image_data: ImageData,
    nodes: Vec<Node>,
    priority_queue: Vec<OrdNode>,
    dimensions: (usize, usize),
}

impl QuadTree {
    pub closed spec fn grid(&self) -> Seq<Seq<RGB<u64>>> {
        self.image_data.grid()
    }

    pub closed spec fn spec_height(&self) -> int {
        self.image_data.spec_height() as int
    }

    pub closed spec fn spec_width(&self) -> int {
        self.image_data.spec_width() as int
    }

    /// The node arena.
    pub closed spec fn arena(&self) -> Seq<Node> {
        self.nodes@
    }

    /// The split candidates, in insertion order.
    pub closed spec fn queue(&self) -> Seq<OrdNode> {
        self.priority_queue@
    }

    pub closed spec fn wf(&self) -> bool {
        &&& self.image_data.wf()
        &&& self.dimensions == (self.image_data.spec_height() as usize, self.image_data.spec_width() as usize)
        &&& tree_wf(self.grid(), self.spec_height(), self.spec_width(), self.nodes@, self.priority_queue@)
    }

    /// What a well-formed tree says of its parts.
    pub proof fn lemma_wf(&self)
        requires
            self.wf(),
        ensures
            tree_wf(self.grid(), self.spec_height(), self.spec_width(), self.arena(), self.queue()),
            crate::prefix_sum_matrix::valid_dimensions(self.grid()),
            self.spec_height() == self.grid().len(),
            self.spec_width() == self.grid()[0].len(),
            0 < self.spec_height() <= crate::prefix_sum_matrix::MAX_SIDE,
            0 < self.spec_width() <= crate::prefix_sum_matrix::MAX_SIDE,
    {
        self.image_data.lemma_wf();
    }

    /// A tree whose single leaf covers the whole image.
    pub fn new(image_data: ImageData) -> (res: Self)
        requires
            image_data.wf(),
        ensures
            res.wf(),
            res.grid() == image_data.grid(),
            res.spec_height() == image_data.spec_height(),
            res.spec_width() == image_data.spec_width(),
            res.arena() == seq![
                leaf_node(
                    (0, 0),
                    ((image_data.spec_height() - 1) as usize, (image_data.spec_width() - 1) as usize),
                ),
            ],
            res.queue() == enqueue(seq![], image_data.grid(), 0, res.arena()[0]),
            internal_count(res.arena()) == 0,
    {
        proof {
            image_data.lemma_wf();
        }
        let dimensions = (image_data.height(), image_data.width());
        let root = Node::leaf((0, 0), (dimensions.0 - 1, dimensions.1 - 1));
        let mut nodes: Vec<Node> = Vec::new();
        nodes.push(root);
        let mut priority_queue: Vec<OrdNode> = Vec::new();
        if root.can_split() {
            priority_queue.push(OrdNode::new(&nodes, 0, &image_data));
        }
        let res = Self { image_data, nodes, priority_queue, dimensions };
        proof {
            reveal(tree_wf);
            let s = res.nodes@;
            assert(s.drop_last() =~= Seq::<Node>::empty());
            assert(internal_count(Seq::<Node>::empty()) == 0);
            assert(internal_count(s) == 0);
            assert forall|r: int, c: int|
                0 <= r < res.spec_height() && 0 <= c < res.spec_width() implies #[trigger] covered(s, r, c) by {
                assert(s[0].contains(r, c));
            }
            reveal(enqueue);
            assert(res.queue() =~= enqueue(seq![], res.grid(), 0, s[0]));
            if root.splittable() {
                assert forall|i: int| 0 <= i < s.len() && (#[trigger] s[i]).is_leaf() && s[i].splittable() implies exists|q: int|
                    0 <= q < res.queue().len() && #[trigger] res.queue()[q].node_idx == i by {
                    assert(res.queue()[0].node_idx == 0);
                }
            }
        }
        res
    }

    /// Splits the leaf with the largest variance score (the earliest queued
    /// one among equal scores) into its four quadrants. Fails, changing
    /// nothing, when no leaf can split.
    #[verifier::spinoff_prover]
    #[verifier::rlimit(40)]
    pub fn split_next(&mut self) -> (res: Result<(), CompressError>)
        requires
            old(self).wf(),
            old(self).arena().len() + 4 <= usize::MAX,
        ensures
            final(self).wf(),
            final(self).grid() == old(self).grid(),
            final(self).spec_height() == old(self).spec_height(),
            final(self).spec_width() == old(self).spec_width(),
            old(self).queue().len() == 0 <==> !has_splittable_leaf(old(self).arena()),
            match res {
                Ok(()) => {
                    &&& has_splittable_leaf(old(self).arena())
                    &&& final(self).arena() == nodes_after_split(old(self).arena(), split_target(old(self).queue()))
                    &&& final(self).queue() == queue_after_split(old(self).grid(), old(self).arena(), old(self).queue())
                    &&& internal_count(final(self).arena()) == internal_count(old(self).arena()) + 1
                },
                Err(e) => {
                    &&& !has_splittable_leaf(old(self).arena())
                    &&& e == CompressError::NoMoreSplittableRegions
                    &&& *final(self) == *old(self)
                },
            },
    {
        proof {
            self.lemma_wf();
            lemma_queue_empty(self.grid(), self.spec_height(), self.spec_width(), self.nodes@, self.priority_queue@);
        }
        let len = self.priority_queue.len();
        if len == 0 {
            return Err(CompressError::NoMoreSplittableRegions);
        }
        let ghost g = self.grid();
        let ghost nodes0 = self.nodes@;
        let ghost queue0 = self.priority_queue@;
        let mut m: usize = 0;
        let mut i: usize = 1;
        while i < len
            invariant
                len == queue0.len(),
                self.priority_queue@ == queue0,
                0 <= m < i <= len,
                forall|j: int| 0 <= j < i ==> (#[trigger] queue0[j]).variance <= queue0[m as int].variance,
                forall|j: int| 0 <= j < m ==> (#[trigger] queue0[j]).variance < queue0[m as int].variance,
            decreases len - i,
        {
            if self.priority_queue[i].variance > self.priority_queue[m].variance {
                m = i;
            }
            i += 1;
        }
        proof {
            lemma_first_max(queue0, m as int);
            lemma_entry_facts(g, self.spec_height(), self.spec_width(), nodes0, queue0, m as int);
        }
        let top = self.priority_queue.remove(m);
        let p = top.node_idx;
        let node = self.nodes[p];
        let ghost c = quad(node);
        proof {
            lemma_quad_partition(node);
        }
        let (a, b, cc, d) = match node.split() {
            Some(q) => q,
            None => {
                proof {
                    assert(false);
                }
                return Err(CompressError::NoMoreSplittableRegions);
            },
        };
        let n = self.nodes.len();
        self.nodes.push(a);
        self.nodes.push(b);
        self.nodes.push(cc);
        self.nodes.push(d);
        self.nodes.set(
            p,
            Node {
                top_left: node.top_left,
                bottom_right: node.bottom_right,
                children: Some(
                    NodeChildren {
                        top_left_idx: n,
                        top_right_idx: n + 1,
                        bottom_left_idx: n + 2,
                        bottom_right_idx: n + 3,
                    },
                ),
            },
        );
        let ghost s = nodes_after_split(nodes0, p as int);
        proof {
            assert(self.nodes@ =~= s);
            assert forall|k: int| 0 <= k < 4 implies #[trigger] s[n + k] == c[k] by {}
            assert forall|k: int| 0 <= k < 4 implies self.image_data.in_bounds(
                #[trigger] c[k].top_left,
                c[k].bottom_right,
            ) by {
                assert(c[k].contains(c[k].top_left.0 as int, c[k].top_left.1 as int));
                assert(c[k].contains(c[k].bottom_right.0 as int, c[k].bottom_right.1 as int));
            }
        }
        let ghost q0 = self.priority_queue@;
        if a.can_split() {
            let e = OrdNode::new(&self.nodes, n, &self.image_data);
            self.priority_queue.push(e);
        }
        proof {
            reveal(enqueue);
            assert(self.priority_queue@ =~= enqueue(q0, g, n as int, c[0]));
        }
        let ghost q1 = self.priority_queue@;
        if b.can_split() {
            let e = OrdNode::new(&self.nodes, n + 1, &self.image_data);
            self.priority_queue.push(e);
        }
        proof {
            reveal(enqueue);
            assert(self.priority_queue@ =~= enqueue(q1, g, n + 1, c[1]));
        }
        let ghost q2 = self.priority_queue@;
        if cc.can_split() {
            let e = OrdNode::new(&self.nodes, n + 2, &self.image_data);
            self.priority_queue.push(e);
        }
        proof {
            reveal(enqueue);
            assert(self.priority_queue@ =~= enqueue(q2, g, n + 2, c[2]));
        }
        let ghost q3 = self.priority_queue@;
        if d.can_split() {
            let e = OrdNode::new(&self.nodes, n + 3, &self.image_data);
            self.priority_queue.push(e);
        }
        proof {
            reveal(enqueue);
            assert(self.priority_queue@ =~= enqueue(q3, g, n + 3, c[3]));
            assert(self.priority_queue@ == queue_after_split(g, nodes0, queue0));
            assert forall|k: int| 0 <= k < 4 implies 0 <= #[trigger] variance_score(
                g,
                quad(nodes0[split_target(queue0)])[k].top_left,
                quad(nodes0[split_target(queue0)])[k].bottom_right,
            ) <= u64::MAX by {
                self.image_data.lemma_variance_bounds(c[k].top_left, c[k].bottom_right);
            }
            lemma_step_wf(g, self.spec_height(), self.spec_width(), nodes0, queue0);
        }
        Ok(())
    }

    /// Renders the tree: every pixel takes the mean color of its leaf, and,
    /// with an outline color, every pixel on a leaf's border takes that color.
    /// The result is row-major, `height * width` pixels.
    #[verifier::spinoff_prover]
    pub fn render(&self, outline: Option<RGB<u8>>) -> (res: Vec<RGB<u8>>)
        requires
            self.wf(),
        ensures
            res@ == render_view(self.grid(), self.spec_height(), self.spec_width(), self.arena(), outline),
    {
        proof {
            self.lemma_wf();
        }
        proof {
            reveal(tree_wf);
        }
        let (height, width) = self.dimensions;
        let ghost h = height as int;
        let ghost w = width as int;
        let ghost g = self.grid();
        let ghost nodes = self.nodes@;
        assert(height * width <= MAX_SIDE * MAX_SIDE) by (nonlinear_arith)
            requires
                height <= MAX_SIDE,
                width <= MAX_SIDE,
        ;
        let total = height * width;
        let mut buf: Vec<RGB<u8>> = Vec::new();
        let mut k: usize = 0;
        while k < total
            invariant
                k <= total,
                buf@.len() == k,
            decreases total - k,
        {
            buf.push(RGB::new(0, 0, 0));
            k += 1;
        }
        let mut i: usize = 0;
        while i < self.nodes.len()
            invariant
                self.wf(),
                nodes == self.nodes@,
                g == self.grid(),
                h == self.spec_height(),
                w == self.spec_width(),
                height == h,
                width == w,
                total == h * w,
                0 < h <= MAX_SIDE,
                0 < w <= MAX_SIDE,
                nodes_in_image(nodes, h, w),
                tiles(nodes, h, w),
                i <= nodes.len(),
                buf@.len() == total,
                painted_upto(g, w, nodes, outline, i as int, buf@),
            decreases nodes.len() - i,
        {
            let node = self.nodes[i];
            if node.children.is_none() {
                assert(nodes_in_image(nodes, h, w) && nodes[i as int].is_rect());
                let mean = self.image_data.average(node.top_left, node.bottom_right);
                let color = RGB::new(mean.r as u8, mean.g as u8, mean.b as u8);
                assert(chan(mean, 0) == mean.r && chan(mean, 1) == mean.g && chan(mean, 2) == mean.b);
                assert(color == mean_color(g, node));
                let ghost b1 = buf@;
                fill_leaf(&mut buf, width, height, &node, color, outline);
                proof {
                    lemma_render_step(g, h, w, nodes, outline, i as int, b1, buf@);
                }
            }
            i += 1;
        }
        proof {
            let v = render_view(g, h, w, nodes, outline);
            assert forall|idx: int| 0 <= idx < total implies #[trigger] buf@[idx] == v[idx] by {
                let r = idx / w;
                let c = idx % w;
                vstd::arithmetic::div_mod::lemma_fundamental_div_mod(idx, w);
                assert(0 <= c < w);
                assert(0 <= r < h) by (nonlinear_arith)
                    requires
                        idx == w * r + c,
                        0 <= c < w,
                        0 <= idx < h * w,
                ;
                assert(pixel_index(w, r, c) == idx) by (nonlinear_arith)
                    requires
                        idx == w * r + c,
                ;
                assert(covered(nodes, r, c));
                let j = leaf_at(nodes, r, c);
                assert(nodes[j].contains(r, c));
                assert(buf@[pixel_index(w, r, c)] == paint(nodes[j], mean_color(g, nodes[j]), outline, r, c));
            }
            assert(buf@ =~= v);
        }
        buf
    }

    /// The render as 3-channel bytes, row-major.
    pub fn render_rgb(&self, outline: Option<RGB<u8>>) -> (res: Vec<u8>)
        requires
            self.wf(),
        ensures
            res@ == rgb_bytes(render_view(self.grid(), self.spec_height(), self.spec_width(), self.arena(), outline)),
    {
        let px = self.render(outline);
        to_rgb_bytes(&px)
    }

    /// The render as 4-channel bytes, row-major, every alpha `MAX_ALPHA`.
    pub fn render_rgba(&self, outline: Option<RGB<u8>>) -> (res: Vec<u8>)
        requires
            self.wf(),
        ensures
            res@ == rgba_bytes(render_view(self.grid(), self.spec_height(), self.spec_width(), self.arena(), outline)),
    {
        let px = self.render(outline);
        to_rgba_bytes(&px)
    }

    pub fn height(&self) -> (res: usize)
        requires
            self.wf(),
        ensures
            res == self.spec_height(),
    {
        proof {
            self.lemma_wf();
        }
        self.dimensions.0
    }

    pub fn width(&self) -> (res: usize)
        requires
            self.wf(),
        ensures
            res == self.spec_width(),
    {
        proof {
            self.lemma_wf();
        }
        self.dimensions.1
    }

    /// Number of nodes in the arena.
    pub fn node_count(&self) -> (res: usize)
        ensures
            res == self.arena().len(),
    {
        self.nodes.len()
    }

    /// Arena shape after any number of steps: a tree with K split nodes holds
    /// 1 + 4K nodes, 1 + 3K of them leaves, and its leaves tile the image,
    /// each pixel lying in exactly one leaf. A fresh tree has K = 0 and each
    /// successful step adds one to K.
    pub proof fn lemma_arena_counts(&self)
        requires
            self.wf(),
        ensures
            self.arena().len() == 1 + 4 * internal_count(self.arena()),
            leaf_count(self.arena()) == 1 + 3 * internal_count(self.arena()),
            tiles(self.arena(), self.spec_height(), self.spec_width()),
    {
        reveal(tree_wf);
        lemma_counts_sum(self.arena());
    }

    /// Before any split, the image renders as one color: the mean color of
    /// the whole image.
    pub proof fn lemma_initial_render(&self)
        requires
            self.wf(),
            internal_count(self.arena()) == 0,
        ensures
            ({
                let v = render_view(self.grid(), self.spec_height(), self.spec_width(), self.arena(), None);
                let whole = leaf_node(
                    (0, 0),
                    ((self.spec_height() - 1) as usize, (self.spec_width() - 1) as usize),
                );
                &&& v.len() == self.spec_height() * self.spec_width()
                &&& forall|idx: int| 0 <= idx < v.len() ==> #[trigger] v[idx] == mean_color(self.grid(), whole)
            }),
    {
        reveal(tree_wf);
        self.lemma_wf();
        let g = self.grid();
        let h = self.spec_height();
        let w = self.spec_width();
        let nodes = self.arena();
        let v = render_view(g, h, w, nodes, None);
        let whole = leaf_node((0, 0), ((h - 1) as usize, (w - 1) as usize));
        assert(0 <= h * w) by (nonlinear_arith)
            requires
                0 < h,
                0 < w,
        ;
        assert forall|idx: int| 0 <= idx < v.len() implies #[trigger] v[idx] == mean_color(g, whole) by {
            let r = idx / w;
            let c = idx % w;
            vstd::arithmetic::div_mod::lemma_fundamental_div_mod(idx, w);
            assert(0 <= r < h) by (nonlinear_arith)
                requires
                    idx == w * r + c,
                    0 <= c < w,
                    0 <= idx < h * w,
            ;
            assert(covered(nodes, r, c));
            let j = leaf_at(nodes, r, c);
            assert(nodes[j].contains(r, c));
            assert(j == 0);
            assert(nodes[0].same_rect(whole));
        }
    }
}

} // verus!
