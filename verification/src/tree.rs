//! Decision trees and models, and what it means to walk a row down a tree.
use vstd::prelude::*;

use crate::float32::{law_order_is_that_of_the_values, law_what_is_not_a_number, value_of, F32};
use crate::types::{Objective, SchemaMode};

verus! {

/// A node of a tree. Children are numbers of nodes of the same tree.
#[derive(Clone, Copy, Debug, PartialEq, Eq, Structural)]
pub struct Node {
    pub feat: u32,
    /// A row goes left where its value lies below this.
    pub split_cond: F32,
    pub left: i32,
    pub right: i32,
    /// Where a missing value goes.
    pub default_left: bool,
    pub is_leaf: bool,
    pub leaf_value: F32,
}

impl Node {
    /// A leaf.
    pub fn leaf(value: F32) -> (n: Node)
        ensures
            n.is_leaf,
            n.leaf_value == value,
            n.feat == 0,
            n.split_cond.bits == 0,
            n.left == -1,
            n.right == -1,
            !n.default_left,
    {
        Node {
            feat: 0,
            split_cond: F32 { bits: 0 },
            left: -1,
            right: -1,
            default_left: false,
            is_leaf: true,
            leaf_value: value,
        }
    }
}

/// A tree; its root is node 0.
pub struct Tree {
    pub nodes: Vec<Node>,
}

impl Tree {
    /// Appends a leaf and returns its number.
    pub fn push_leaf(&mut self, value: F32) -> (id: usize)
        ensures
            id == old(self).nodes@.len(),
            final(self).nodes@.len() == id + 1,
            final(self).nodes@.take(id as int) == old(self).nodes@,
            final(self).nodes@[id as int].is_leaf,
            final(self).nodes@[id as int].leaf_value == value,
    {
        let id: usize = self.nodes.len();
        self.nodes.push(Node::leaf(value));
        assert(self.nodes@.take(id as int) =~= old(self).nodes@);
        id
    }

    /// Turns a leaf into a split with two new leaves, and returns their numbers.
    pub fn split_leaf(
        &mut self,
        id: usize,
        feat: u32,
        split_cond: F32,
        default_left: bool,
        left_value: F32,
        right_value: F32,
    ) -> (r: (usize, usize))
        requires
            id < old(self).nodes@.len(),
            old(self).nodes@.len() + 1 <= i32::MAX,
        ensures
            r.0 == old(self).nodes@.len(),
            r.1 == r.0 + 1,
            final(self).nodes@.len() == old(self).nodes@.len() + 2,
            forall|i: int|
                0 <= i < old(self).nodes@.len() && i != id ==> #[trigger] final(self).nodes@[i]
                    == old(self).nodes@[i],
            ({
                let n = final(self).nodes@[id as int];
                &&& !n.is_leaf
                &&& n.feat == feat
                &&& n.split_cond == split_cond
                &&& n.default_left == default_left
                &&& n.left == r.0
                &&& n.right == r.1
            }),
            final(self).nodes@[r.0 as int].is_leaf,
            final(self).nodes@[r.0 as int].leaf_value == left_value,
            final(self).nodes@[r.1 as int].is_leaf,
            final(self).nodes@[r.1 as int].leaf_value == right_value,
    {
        let left: usize = self.nodes.len();
        let right: usize = left + 1;
        let old_node: Node = self.nodes[id];
        self.nodes.set(
            id,
            Node {
                feat,
                split_cond,
                left: left as i32,
                right: right as i32,
                default_left,
                is_leaf: false,
                leaf_value: old_node.leaf_value,
            },
        );
        self.nodes.push(Node::leaf(left_value));
        self.nodes.push(Node::leaf(right_value));
        (left, right)
    }
}

/// A trained model.
pub struct Model {
    pub trees: Vec<Tree>,
    pub base_score: F32,
    pub objective: Objective,
    pub n_features: usize,
    pub best_iteration: Option<usize>,
    pub best_score: Option<F32>,
    pub feature_names: Vec<String>,
    pub schema_mode: Option<SchemaMode>,
}

/// Does a row go left at a node?
pub open spec fn goes_left(node: Node, row: Seq<F32>) -> bool {
    let v = row[node.feat as int];
    if v.nan() {
        node.default_left
    } else {
        v.lt(node.split_cond)
    }
}

/// The next node on a row's way; a leaf stays where it is.
pub open spec fn step(nodes: Seq<Node>, row: Seq<F32>, id: int) -> int {
    let node = nodes[id];
    if node.is_leaf {
        id
    } else if goes_left(node, row) {
        node.left as int
    } else {
        node.right as int
    }
}

/// Where a row is after `k` steps from `id`.
pub open spec fn walk(nodes: Seq<Node>, row: Seq<F32>, id: int, k: int) -> int
    decreases k,
{
    if k <= 0 {
        id
    } else {
        step(nodes, row, walk(nodes, row, id, k - 1))
    }
}

/// The value of the leaf that a row reaches. As many steps as there are nodes are enough.
pub open spec fn leaf_value_of(nodes: Seq<Node>, row: Seq<F32>) -> F32 {
    nodes[walk(nodes, row, 0, nodes.len() as int)].leaf_value
}

/// Splits use existing features and children.
pub open spec fn node_ok(node: Node, n_nodes: int, n_features: int) -> bool {
    node.is_leaf || {
        &&& node.feat < n_features
        &&& 0 <= node.left < n_nodes
        &&& 0 <= node.right < n_nodes
    }
}

/// All nodes are in order.
pub open spec fn nodes_ok(nodes: Seq<Node>, n_features: int) -> bool {
    forall|i: int|
        0 <= i < nodes.len() ==> node_ok(#[trigger] nodes[i], nodes.len() as int, n_features)
}

/// How many nodes a walk of at most `d` steps from `id` can see, each path counted.
pub open spec fn unfolded(nodes: Seq<Node>, id: int, d: int) -> int
    decreases d,
{
    if d <= 0 || nodes[id].is_leaf {
        1
    } else {
        1 + unfolded(nodes, nodes[id].left as int, d - 1) + unfolded(
            nodes,
            nodes[id].right as int,
            d - 1,
        )
    }
}

/// The longest way from `id` to a leaf, up to `d` steps.
pub open spec fn height(nodes: Seq<Node>, id: int, d: int) -> int
    decreases d,
{
    if d <= 0 || nodes[id].is_leaf {
        0
    } else {
        let l = height(nodes, nodes[id].left as int, d - 1);
        let r = height(nodes, nodes[id].right as int, d - 1);
        1 + if l >= r {
            l
        } else {
            r
        }
    }
}

/// Children of splits exist.
pub open spec fn children_ok(nodes: Seq<Node>) -> bool {
    forall|i: int|
        0 <= i < nodes.len() && !(#[trigger] nodes[i]).is_leaf ==> 0 <= nodes[i].left < nodes.len()
            && 0 <= nodes[i].right < nodes.len()
}

/// Nodes that are in order have children that exist.
pub proof fn lemma_children_ok(nodes: Seq<Node>, n_features: int)
    requires
        nodes_ok(nodes, n_features),
    ensures
        children_ok(nodes),
{
    assert forall|i: int| 0 <= i < nodes.len() && !(#[trigger] nodes[i]).is_leaf implies 0
        <= nodes[i].left < nodes.len() && 0 <= nodes[i].right < nodes.len() by {
        assert(node_ok(nodes[i], nodes.len() as int, n_features));
    }
}

/// No way from the root leads in a circle: every way ends before it has taken as many steps as
/// there are nodes. Two ways may meet.
pub open spec fn walks_end(nodes: Seq<Node>) -> bool {
    height(nodes, 0, nodes.len() as int) < nodes.len()
}

/// Rows of this width can be walked down a tree.
pub open spec fn can_walk(nodes: Seq<Node>, width: int) -> bool {
    nodes.len() > 0 && nodes_ok(nodes, width) && walks_end(nodes)
}

/// The ways from the root, each taken on its own, visit no more nodes than there are. Then no way
/// leads in a circle, and hardly two meet.
pub open spec fn acyclic(nodes: Seq<Node>) -> bool {
    unfolded(nodes, 0, nodes.len() as int) <= nodes.len()
}

/// Every count of seen nodes is at least one.
pub proof fn lemma_unfolded_positive(nodes: Seq<Node>, id: int, d: int)
    ensures
        unfolded(nodes, id, d) >= 1,
    decreases d,
{
    if d > 0 && !nodes[id].is_leaf {
        lemma_unfolded_positive(nodes, nodes[id].left as int, d - 1);
        lemma_unfolded_positive(nodes, nodes[id].right as int, d - 1);
    }
}

/// A way cannot be longer than the nodes it sees.
pub proof fn lemma_height_below_unfolded(nodes: Seq<Node>, id: int, d: int)
    ensures
        0 <= height(nodes, id, d) < unfolded(nodes, id, d),
        d >= 0 ==> height(nodes, id, d) <= d,
    decreases d,
{
    if d > 0 && !nodes[id].is_leaf {
        lemma_height_below_unfolded(nodes, nodes[id].left as int, d - 1);
        lemma_height_below_unfolded(nodes, nodes[id].right as int, d - 1);
    }
}

/// A walk stays among the nodes.
pub proof fn lemma_walk_in_range(nodes: Seq<Node>, row: Seq<F32>, id: int, k: int, n_features: int)
    requires
        nodes_ok(nodes, n_features),
        0 <= id < nodes.len(),
    ensures
        0 <= walk(nodes, row, id, k) < nodes.len(),
    decreases k,
{
    if k > 0 {
        lemma_walk_in_range(nodes, row, id, k - 1, n_features);
        let p = walk(nodes, row, id, k - 1);
        assert(node_ok(nodes[p], nodes.len() as int, n_features));
    }
}

/// Taking the first step first changes nothing.
pub proof fn lemma_walk_first(nodes: Seq<Node>, row: Seq<F32>, id: int, k: int)
    requires
        k > 0,
    ensures
        walk(nodes, row, id, k) == walk(nodes, row, step(nodes, row, id), k - 1),
    decreases k,
{
    reveal_with_fuel(walk, 2);
    if k > 1 {
        lemma_walk_first(nodes, row, id, k - 1);
    }
}

/// Within its height a walk ends at a leaf, where the height is less than the bound.
pub proof fn lemma_walk_reaches_leaf(nodes: Seq<Node>, row: Seq<F32>, id: int, d: int, k: int)
    requires
        0 <= height(nodes, id, d) < d,
        k >= height(nodes, id, d),
    ensures
        nodes[walk(nodes, row, id, k)].is_leaf,
    decreases d,
{
    if nodes[id].is_leaf {
        lemma_leaf_stays(nodes, row, id, k);
    } else {
        lemma_height_below_unfolded(nodes, nodes[id].left as int, d - 1);
        lemma_height_below_unfolded(nodes, nodes[id].right as int, d - 1);
        lemma_walk_first(nodes, row, id, k);
        let next = step(nodes, row, id);
        lemma_walk_reaches_leaf(nodes, row, next, d - 1, k - 1);
    }
}

/// A walk that starts at a leaf stays there.
pub proof fn lemma_leaf_stays(nodes: Seq<Node>, row: Seq<F32>, id: int, k: int)
    requires
        nodes[id].is_leaf,
    ensures
        walk(nodes, row, id, k) == id,
    decreases k,
{
    if k > 0 {
        lemma_leaf_stays(nodes, row, id, k - 1);
    }
}

/// Once a walk has reached a leaf, further steps change nothing.
pub proof fn lemma_walk_settles(nodes: Seq<Node>, row: Seq<F32>, id: int, j: int, k: int)
    requires
        0 <= j <= k,
        nodes[walk(nodes, row, id, j)].is_leaf,
    ensures
        walk(nodes, row, id, k) == walk(nodes, row, id, j),
    decreases k,
{
    if j < k {
        lemma_walk_settles(nodes, row, id, j, k - 1);
    }
}

/// Where the ways, each taken on its own, visit no more nodes than there are, they all end.
pub proof fn lemma_acyclic_walks_end(nodes: Seq<Node>)
    requires
        acyclic(nodes),
    ensures
        walks_end(nodes),
{
    lemma_height_below_unfolded(nodes, 0, nodes.len() as int);
}

/// The nodes at which a way of exactly `k` steps from `id` can be.
pub open spec fn reached(nodes: Seq<Node>, id: int, k: int) -> Set<int>
    decreases k,
{
    if k <= 0 {
        set![id]
    } else if nodes[id].is_leaf {
        Set::empty()
    } else {
        reached(nodes, nodes[id].left as int, k - 1).union(
            reached(nodes, nodes[id].right as int, k - 1),
        )
    }
}

/// Something is in the set.
spec fn has_some(s: Set<int>) -> bool {
    exists|x: int| s.contains(x)
}

/// A way can be `k` steps long exactly where some node can be reached in `k` steps.
proof fn lemma_reached_means_height(nodes: Seq<Node>, id: int, k: int, d: int)
    requires
        0 <= k <= d,
    ensures
        height(nodes, id, d) >= k <==> has_some(reached(nodes, id, k)),
    decreases k,
{
    lemma_height_below_unfolded(nodes, id, d);
    if k == 0 {
        assert(reached(nodes, id, k).contains(id));
    } else if !nodes[id].is_leaf {
        let l = nodes[id].left as int;
        let r = nodes[id].right as int;
        lemma_reached_means_height(nodes, l, k - 1, d - 1);
        lemma_reached_means_height(nodes, r, k - 1, d - 1);
        let here = reached(nodes, id, k);
        let left = reached(nodes, l, k - 1);
        let right = reached(nodes, r, k - 1);
        if has_some(left) {
            let x = choose|x: int| left.contains(x);
            assert(here.contains(x));
        }
        if has_some(right) {
            let x = choose|x: int| right.contains(x);
            assert(here.contains(x));
        }
        if has_some(here) {
            let x = choose|x: int| here.contains(x);
            assert(left.contains(x) || right.contains(x));
        }
    }
}

/// `y` is a split and `x` one of its children.
pub open spec fn is_child(nodes: Seq<Node>, y: int, x: int) -> bool {
    !nodes[y].is_leaf && (x == nodes[y].left || x == nodes[y].right)
}

/// `x` is a child of a split in the set.
spec fn leads_to(nodes: Seq<Node>, from: Set<int>, x: int) -> bool {
    exists|y: int| #[trigger] from.contains(y) && is_child(nodes, y, x)
}

/// The last step of a way leads from a split to one of its children.
proof fn lemma_reached_step(nodes: Seq<Node>, id: int, k: int, x: int)
    requires
        0 <= k,
    ensures
        reached(nodes, id, k + 1).contains(x) <==> leads_to(nodes, reached(nodes, id, k), x),
    decreases k,
{
    if k == 0 {
        reveal_with_fuel(reached, 2);
        assert(reached(nodes, id, 0).contains(id));
        if is_child(nodes, id, x) {
            assert(reached(nodes, id, 1).contains(x));
        }
    } else if !nodes[id].is_leaf {
        let l = nodes[id].left as int;
        let r = nodes[id].right as int;
        lemma_reached_step(nodes, l, k - 1, x);
        lemma_reached_step(nodes, r, k - 1, x);
        let here = reached(nodes, id, k);
        let left = reached(nodes, l, k - 1);
        let right = reached(nodes, r, k - 1);
        if leads_to(nodes, left, x) {
            let y = choose|y: int| #[trigger] left.contains(y) && is_child(nodes, y, x);
            assert(here.contains(y));
        }
        if leads_to(nodes, right, x) {
            let y = choose|y: int| #[trigger] right.contains(y) && is_child(nodes, y, x);
            assert(here.contains(y));
        }
        if leads_to(nodes, here, x) {
            let y = choose|y: int| #[trigger] here.contains(y) && is_child(nodes, y, x);
            assert(left.contains(y) || right.contains(y));
        }
    } else {
        assert(!leads_to(nodes, reached(nodes, id, k), x));
    }
}

/// Marks the children of the marked splits, and tells whether there are any.
fn next_level(nodes: &Vec<Node>, marks: &Vec<bool>) -> (r: (Vec<bool>, bool))
    requires
        children_ok(nodes@),
        marks@.len() == nodes@.len(),
    ensures
        r.0@.len() == nodes@.len(),
        forall|x: int|
            0 <= x < nodes@.len() ==> (#[trigger] r.0@[x] <==> exists|y: int|
                0 <= y < nodes@.len() && #[trigger] marks@[y] && is_child(nodes@, y, x)),
        r.1 <==> exists|y: int|
            0 <= y < nodes@.len() && #[trigger] marks@[y] && !nodes@[y].is_leaf,
{
    let n: usize = nodes.len();
    let mut next: Vec<bool> = Vec::new();
    let mut i: usize = 0;
    while i < n
        invariant
            i <= n,
            next@.len() == i,
            forall|x: int| 0 <= x < i ==> !#[trigger] next@[x],
        decreases n - i,
    {
        next.push(false);
        i += 1;
    }
    let mut any: bool = false;
    let mut i: usize = 0;
    while i < n
        invariant
            i <= n,
            n == nodes@.len(),
            children_ok(nodes@),
            marks@.len() == n,
            next@.len() == n,
            forall|x: int|
                0 <= x < n ==> (#[trigger] next@[x] <==> exists|y: int|
                    0 <= y < i && #[trigger] marks@[y] && is_child(nodes@, y, x)),
            any <==> exists|y: int| 0 <= y < i && #[trigger] marks@[y] && !nodes@[y].is_leaf,
        decreases n - i,
    {
        let ghost before = next@;
        let node: Node = nodes[i];
        if marks[i] && !node.is_leaf {
            assert(!nodes@[i as int].is_leaf);
            next.set(node.left as usize, true);
            next.set(node.right as usize, true);
            any = true;
        }
        proof {
            assert forall|x: int| 0 <= x < n implies (#[trigger] next@[x] <==> exists|y: int|
                0 <= y < i + 1 && #[trigger] marks@[y] && is_child(nodes@, y, x)) by {
                if before[x] {
                    let y = choose|y: int|
                        0 <= y < i && #[trigger] marks@[y] && is_child(nodes@, y, x);
                    assert(marks@[y]);
                }
                if marks@[i as int] && is_child(nodes@, i as int, x) {
                    assert(next@[x]);
                }
            }
            if marks@[i as int] && !nodes@[i as int].is_leaf {
                assert(any);
            }
        }
        i += 1;
    }
    (next, any)
}

/// The longest way from the root, or nothing where some way leads in a circle.
pub fn longest_way(nodes: &Vec<Node>) -> (r: Option<usize>)
    requires
        nodes@.len() > 0,
        children_ok(nodes@),
    ensures
        match r {
            None => !walks_end(nodes@),
            Some(h) => walks_end(nodes@) && h == height(nodes@, 0, nodes@.len() as int),
        },
{
    let n: usize = nodes.len();
    let mut marks: Vec<bool> = Vec::new();
    marks.push(true);
    while marks.len() < n
        invariant
            1 <= marks@.len() <= n,
            marks@[0],
            forall|x: int| 0 < x < marks@.len() ==> !#[trigger] marks@[x],
        decreases n - marks.len(),
    {
        marks.push(false);
    }
    let ghost s = nodes@;
    let mut k: usize = 0;
    let ghost mut at: Set<int> = reached(s, 0, 0);
    assert(at == set![0int]);
    proof {
        lemma_height_below_unfolded(s, 0, n as int);
    }
    loop
        invariant
            s == nodes@,
            n == s.len(),
            k < n,
            children_ok(s),
            marks@.len() == n,
            height(s, 0, n as int) >= k,
            at == reached(s, 0, k as int),
            forall|x: int| #[trigger] at.contains(x) <==> 0 <= x < n && marks@[x],
        decreases n - k,
    {
        let (next, any): (Vec<bool>, bool) = next_level(nodes, &marks);
        let ghost then_at = reached(s, 0, k + 1);
        proof {
            assert forall|x: int| #[trigger] then_at.contains(x) <==> 0 <= x < n && next@[x] by {
                lemma_reached_step(s, 0, k as int, x);
                if then_at.contains(x) {
                    let y = choose|y: int| #[trigger] at.contains(y) && is_child(s, y, x);
                    assert(marks@[y]);
                    assert(!s[y].is_leaf);
                }
                if 0 <= x < n && next@[x] {
                    let y = choose|y: int| 0 <= y < n && #[trigger] marks@[y] && is_child(s, y, x);
                    assert(at.contains(y));
                }
            }
            lemma_reached_means_height(s, 0, k + 1, n as int);
            if any {
                let y = choose|y: int| 0 <= y < n && #[trigger] marks@[y] && !s[y].is_leaf;
                let x = s[y].left as int;
                assert(is_child(s, y, x));
                assert(next@[x]);
                assert(then_at.contains(x));
            } else {
                assert forall|x: int| !(#[trigger] then_at.contains(x)) by {
                    if 0 <= x < n && next@[x] {
                        let y = choose|y: int|
                            0 <= y < n && #[trigger] marks@[y] && is_child(s, y, x);
                        assert(marks@[y] && !s[y].is_leaf);
                    }
                }
            }
        }
        if !any {
            return Some(k);
        }
        if k + 1 == n {
            return None;
        }
        marks = next;
        proof {
            at = then_at;
        }
        k += 1;
    }
}

/// Where no way leads in a circle, the height bounds every way, and the leaf reached after that
/// many steps is the one that the row belongs to.
pub proof fn law_walk_ends_within_the_height(nodes: Seq<Node>, row: Seq<F32>, k: int)
    requires
        nodes.len() > 0,
        walks_end(nodes),
        k >= height(nodes, 0, nodes.len() as int),
    ensures
        nodes[walk(nodes, row, 0, k)].is_leaf,
        nodes[walk(nodes, row, 0, k)].leaf_value == leaf_value_of(nodes, row),
{
    let n = nodes.len() as int;
    let h = height(nodes, 0, n);
    lemma_height_below_unfolded(nodes, 0, n);
    lemma_walk_reaches_leaf(nodes, row, 0, n, h);
    lemma_walk_settles(nodes, row, 0, h, k);
    lemma_walk_settles(nodes, row, 0, h, n);
}

/// A way down a tree: from a node to one of its children at each step, up to a leaf.
pub open spec fn is_way_down(nodes: Seq<Node>, way: Seq<int>) -> bool {
    &&& way.len() > 0
    &&& nodes[way.last()].is_leaf
    &&& forall|i: int|
        0 <= i < way.len() - 1 ==> {
            let node = nodes[#[trigger] way[i]];
            !node.is_leaf && (way[i + 1] == node.left || way[i + 1] == node.right)
        }
}

/// The height is that of the longest way: some way down takes that many steps, and none takes more.
pub proof fn law_height_is_the_longest_way(nodes: Seq<Node>, id: int, d: int, other: Seq<int>) -> (way:
    Seq<int>)
    requires
        height(nodes, id, d) < d,
        is_way_down(nodes, other),
        other[0] == id,
    ensures
        is_way_down(nodes, way),
        way[0] == id,
        way.len() == height(nodes, id, d) + 1,
        other.len() <= height(nodes, id, d) + 1,
    decreases d,
{
    let way = lemma_longest_way(nodes, id, d);
    lemma_no_longer_way(nodes, id, d, other);
    way
}

proof fn lemma_longest_way(nodes: Seq<Node>, id: int, d: int) -> (way: Seq<int>)
    requires
        height(nodes, id, d) < d,
    ensures
        is_way_down(nodes, way),
        way[0] == id,
        way.len() == height(nodes, id, d) + 1,
    decreases d,
{
    if nodes[id].is_leaf {
        seq![id]
    } else {
        let l = height(nodes, nodes[id].left as int, d - 1);
        let r = height(nodes, nodes[id].right as int, d - 1);
        let next = if l >= r {
            nodes[id].left as int
        } else {
            nodes[id].right as int
        };
        let rest = lemma_longest_way(nodes, next, d - 1);
        let way = seq![id] + rest;
        assert(way.last() == rest.last());
        assert forall|i: int| 0 <= i < way.len() - 1 implies {
            let node = nodes[#[trigger] way[i]];
            !node.is_leaf && (way[i + 1] == node.left || way[i + 1] == node.right)
        } by {
            if i > 0 {
                assert(way[i] == rest[i - 1]);
                assert(way[i + 1] == rest[i]);
            }
        }
        way
    }
}

proof fn lemma_no_longer_way(nodes: Seq<Node>, id: int, d: int, other: Seq<int>)
    requires
        height(nodes, id, d) < d,
        is_way_down(nodes, other),
        other[0] == id,
    ensures
        other.len() <= height(nodes, id, d) + 1,
    decreases d,
{
    if nodes[id].is_leaf {
        if other.len() > 1 {
            assert(!nodes[other[0]].is_leaf);
        }
    } else if other.len() > 1 {
        let rest = other.skip(1);
        assert(rest.last() == other.last());
        assert(other[0] == id);
        assert(rest[0] == other[1]);
        assert forall|i: int| 0 <= i < rest.len() - 1 implies {
            let node = nodes[#[trigger] rest[i]];
            !node.is_leaf && (rest[i + 1] == node.left || rest[i + 1] == node.right)
        } by {
            assert(rest[i] == other[i + 1]);
            assert(rest[i + 1] == other[i + 1 + 1]);
        }
        lemma_no_longer_way(nodes, rest[0], d - 1, rest);
    } else {
        assert(other.last() == other[0]);
    }
}

/// A value that is a number goes by the threshold alone, zero like any other: to the left child
/// exactly where it is smaller, whatever the default direction. Only what is not a number goes
/// by the default direction, and then the threshold does not matter.
pub proof fn law_only_missing_values_go_by_the_default(nodes: Seq<Node>, row: Seq<F32>, id: int)
    requires
        0 <= id < nodes.len(),
        !nodes[id].is_leaf,
    ensures
        ({
            let node = nodes[id];
            let v = row[node.feat as int];
            let next = step(nodes, row, id);
            if (v.bits / 0x80_0000) % 256 == 255 && v.bits % 0x80_0000 != 0 {
                next == if node.default_left {
                    node.left as int
                } else {
                    node.right as int
                }
            } else if node.split_cond.nan() {
                next == node.right
            } else {
                next == if value_of(v) < value_of(node.split_cond) {
                    node.left as int
                } else {
                    node.right as int
                }
            }
        }),
{
    let node = nodes[id];
    let v = row[node.feat as int];
    law_what_is_not_a_number(v, node.split_cond);
    if !v.nan() && !node.split_cond.nan() {
        law_order_is_that_of_the_values(v, node.split_cond);
    }
}

/// Nodes that differ at most in where missing values go.
pub open spec fn same_but_defaults(a: Seq<Node>, b: Seq<Node>) -> bool {
    &&& a.len() == b.len()
    &&& forall|i: int|
        0 <= i < a.len() ==> (#[trigger] b[i]) == (Node { default_left: b[i].default_left, ..a[i] })
}

/// A row without missing values does not notice where missing values would go: two trees that
/// differ only there lead it the same way, to the same leaf.
pub proof fn law_default_directions_do_not_matter_without_missing_values(
    a: Seq<Node>,
    b: Seq<Node>,
    row: Seq<F32>,
    id: int,
    k: int,
)
    requires
        same_but_defaults(a, b),
        children_ok(a),
        0 <= id < a.len(),
        forall|i: int| 0 <= i < a.len() && !(#[trigger] a[i]).is_leaf ==> !row[a[i].feat as int].nan(),
    ensures
        walk(a, row, id, k) == walk(b, row, id, k),
        0 <= walk(a, row, id, k) < a.len(),
        leaf_value_of(a, row) == leaf_value_of(b, row),
{
    lemma_same_way(a, b, row, id, k);
    lemma_same_way(a, b, row, 0, a.len() as int);
    let p = walk(a, row, 0, a.len() as int);
    assert(b[p].leaf_value == a[p].leaf_value);
}

proof fn lemma_same_way(a: Seq<Node>, b: Seq<Node>, row: Seq<F32>, id: int, k: int)
    requires
        same_but_defaults(a, b),
        children_ok(a),
        0 <= id < a.len(),
        forall|i: int| 0 <= i < a.len() && !(#[trigger] a[i]).is_leaf ==> !row[a[i].feat as int].nan(),
    ensures
        walk(a, row, id, k) == walk(b, row, id, k),
        0 <= walk(a, row, id, k) < a.len(),
    decreases k,
{
    if k > 0 {
        lemma_same_way(a, b, row, id, k - 1);
        let p = walk(a, row, id, k - 1);
        assert(b[p].feat == a[p].feat && b[p].split_cond == a[p].split_cond);
        assert(b[p].is_leaf == a[p].is_leaf && b[p].left == a[p].left && b[p].right == a[p].right);
    }
}

/// A tree of one split has two answers: the left leaf's value for every number below the
/// threshold, the right leaf's for every other number, and for a missing value the one of the
/// default side.
pub proof fn law_one_split_has_two_answers(nodes: Seq<Node>, row: Seq<F32>)
    requires
        nodes.len() > 1,
        !nodes[0].is_leaf,
        0 <= nodes[0].left < nodes.len(),
        0 <= nodes[0].right < nodes.len(),
        nodes[nodes[0].left as int].is_leaf,
        nodes[nodes[0].right as int].is_leaf,
        !nodes[0].split_cond.nan(),
    ensures
        ({
            let v = row[nodes[0].feat as int];
            let left = if v.nan() {
                nodes[0].default_left
            } else {
                value_of(v) < value_of(nodes[0].split_cond)
            };
            leaf_value_of(nodes, row) == if left {
                nodes[nodes[0].left as int].leaf_value
            } else {
                nodes[nodes[0].right as int].leaf_value
            }
        }),
{
    let n = nodes.len() as int;
    lemma_walk_first(nodes, row, 0, n);
    law_only_missing_values_go_by_the_default(nodes, row, 0);
    law_what_is_not_a_number(row[nodes[0].feat as int], nodes[0].split_cond);
    lemma_leaf_stays(nodes, row, step(nodes, row, 0), n - 1);
}

/// Of two rows the one with the smaller value in the split feature is never the only one that
/// goes right: where the larger value goes left, so does the smaller.
pub proof fn law_smaller_values_stay_left(
    nodes: Seq<Node>,
    small: Seq<F32>,
    large: Seq<F32>,
    id: int,
)
    requires
        0 <= id < nodes.len(),
        !nodes[id].is_leaf,
        nodes[id].left != nodes[id].right,
        !small[nodes[id].feat as int].nan(),
        !large[nodes[id].feat as int].nan(),
        value_of(small[nodes[id].feat as int]) <= value_of(large[nodes[id].feat as int]),
    ensures
        step(nodes, large, id) == nodes[id].left ==> step(nodes, small, id) == nodes[id].left,
{
    law_only_missing_values_go_by_the_default(nodes, small, id);
    law_only_missing_values_go_by_the_default(nodes, large, id);
    law_what_is_not_a_number(small[nodes[id].feat as int], nodes[id].split_cond);
    law_what_is_not_a_number(large[nodes[id].feat as int], nodes[id].split_cond);
}

/// A leaf answers for every row: a tree that is one leaf gives its value, whatever the row.
pub proof fn law_a_leaf_answers_for_every_row(nodes: Seq<Node>, row: Seq<F32>)
    requires
        nodes.len() > 0,
        nodes[0].is_leaf,
    ensures
        leaf_value_of(nodes, row) == nodes[0].leaf_value,
{
    lemma_leaf_stays(nodes, row, 0, nodes.len() as int);
}

/// What a tree says of a row is what the side it is sent to says of it: one step on, the way is
/// the same from there, and it ends at the same leaf.
pub proof fn law_a_tree_answers_as_the_chosen_side(nodes: Seq<Node>, row: Seq<F32>, id: int, k: int)
    requires
        k >= 0,
        0 <= id < nodes.len(),
        !nodes[id].is_leaf,
    ensures
        walk(nodes, row, id, k + 1) == walk(nodes, row, step(nodes, row, id), k),
        step(nodes, row, id) == nodes[id].left || step(nodes, row, id) == nodes[id].right,
{
    lemma_walk_first(nodes, row, id, k + 1);
}

} // verus!
