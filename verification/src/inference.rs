//! Prediction: blocked traversal of many rows, and a compact copy of a model.
//!
//! Rows go through a tree level by level, a block of rows at a time. A shallow tree is laid
//! out as a complete heap, in which children are found by arithmetic; a deeper one keeps its
//! child numbers. Either way every row ends at the leaf that a walk of its own would reach.
use vstd::arithmetic::power2::pow2;
use vstd::prelude::*;

use crate::float32::{F32, NAN_BITS};
use crate::math::{imin, min_usize};
use crate::tree::{
    acyclic, can_walk, height, law_walk_ends_within_the_height, leaf_value_of,
    lemma_acyclic_walks_end, lemma_height_below_unfolded, lemma_unfolded_positive,
    lemma_walk_in_range, node_ok, nodes_ok, unfolded, walk, Model, Node, Tree,
};

verus! {

/// Rows that are traversed together.
pub const CPU_PREDICTION_BLOCK_ROWS: usize = 64;

/// The deepest tree that is laid out as a complete heap.
pub const MAX_HEAP_DEPTH: usize = 6;

/// Why a model cannot predict.
#[derive(Clone, Copy, Debug, PartialEq, Eq, Structural)]
pub enum InferenceError {
    /// The model has no features.
    NoFeatures,
    /// A tree has no nodes.
    EmptyTree,
    /// A split uses a feature that does not exist.
    FeatureOutOfRange { feat: u32 },
    /// A split has a child that does not exist.
    ChildOutOfRange,
    /// The ways down a tree visit more nodes than it has.
    ChildCycle,
    /// The input has another number of features than the model.
    InputFeatures { got: usize, expected: usize },
    /// The size of the input does not fit a machine word.
    InputOverflow,
    /// The input does not have one value per row and feature.
    InputLength { got: usize, rows: usize, features: usize, expected: usize },
}

/// The first bad node of a tree, and what is wrong with it.
pub open spec fn is_node_error(nodes: Seq<Node>, n_features: int, e: InferenceError) -> bool {
    exists|i: int|
        {
            let n = nodes.len() as int;
            &&& 0 <= i < n
            &&& !node_ok(#[trigger] nodes[i], n, n_features)
            &&& forall|j: int| 0 <= j < i ==> node_ok(#[trigger] nodes[j], n, n_features)
            &&& e == if nodes[i].feat >= n_features {
                InferenceError::FeatureOutOfRange { feat: nodes[i].feat }
            } else {
                InferenceError::ChildOutOfRange
            }
        }
}

/// Why a tree is refused.
pub open spec fn is_tree_error(nodes: Seq<Node>, n_features: int, e: InferenceError) -> bool {
    if nodes.len() == 0 {
        e == InferenceError::EmptyTree
    } else if !nodes_ok(nodes, n_features) {
        is_node_error(nodes, n_features, e)
    } else {
        !acyclic(nodes) && e == InferenceError::ChildCycle
    }
}

/// A tree that can be traversed.
pub open spec fn tree_ok(nodes: Seq<Node>, n_features: int) -> bool {
    nodes.len() > 0 && nodes_ok(nodes, n_features) && acyclic(nodes)
}

/// Reports the first bad node.
pub(crate) fn check_nodes(nodes: &Vec<Node>, n_features: usize) -> (r: Option<InferenceError>)
    ensures
        match r {
            None => nodes_ok(nodes@, n_features as int),
            Some(e) => !nodes_ok(nodes@, n_features as int) && is_node_error(
                nodes@,
                n_features as int,
                e,
            ),
        },
{
    let n: usize = nodes.len();
    let mut i: usize = 0;
    while i < n
        invariant
            n == nodes@.len(),
            i <= n,
            forall|j: int| 0 <= j < i ==> node_ok(#[trigger] nodes@[j], n as int, n_features as int),
        decreases n - i,
    {
        let node: Node = nodes[i];
        if !node.is_leaf {
            if node.feat as usize >= n_features {
                assert(!node_ok(nodes@[i as int], n as int, n_features as int));
                return Some(InferenceError::FeatureOutOfRange { feat: node.feat });
            }
            if node.left < 0 || node.right < 0 || node.left as usize >= n || node.right as usize
                >= n {
                assert(!node_ok(nodes@[i as int], n as int, n_features as int));
                return Some(InferenceError::ChildOutOfRange);
            }
        }
        i += 1;
    }
    None
}

/// The nodes that the entries of a stack can still see.
spec fn stack_size(nodes: Seq<Node>, stack: Seq<(usize, usize)>) -> int
    decreases stack.len(),
{
    if stack.len() == 0 {
        0
    } else {
        stack_size(nodes, stack.drop_last()) + unfolded(
            nodes,
            stack.last().0 as int,
            nodes.len() - stack.last().1,
        )
    }
}

/// The deepest leaf that the entries of a stack can still reach.
spec fn stack_height(nodes: Seq<Node>, stack: Seq<(usize, usize)>) -> int
    decreases stack.len(),
{
    if stack.len() == 0 {
        0
    } else {
        let rest = stack_height(nodes, stack.drop_last());
        let here = stack.last().1 + height(
            nodes,
            stack.last().0 as int,
            nodes.len() - stack.last().1,
        );
        if rest >= here {
            rest
        } else {
            here
        }
    }
}

proof fn lemma_stack_push(nodes: Seq<Node>, stack: Seq<(usize, usize)>, e: (usize, usize))
    ensures
        stack_size(nodes, stack.push(e)) == stack_size(nodes, stack) + unfolded(
            nodes,
            e.0 as int,
            nodes.len() - e.1,
        ),
        ({
            let here = e.1 + height(nodes, e.0 as int, nodes.len() - e.1);
            let rest = stack_height(nodes, stack);
            stack_height(nodes, stack.push(e)) == if rest >= here {
                rest
            } else {
                here
            }
        }),
{
    assert(stack.push(e).drop_last() =~= stack);
}

proof fn lemma_stack_size_nonnegative(nodes: Seq<Node>, stack: Seq<(usize, usize)>)
    ensures
        stack_size(nodes, stack) >= 0,
    decreases stack.len(),
{
    if stack.len() > 0 {
        lemma_stack_size_nonnegative(nodes, stack.drop_last());
        lemma_unfolded_positive(nodes, stack.last().0 as int, nodes.len() - stack.last().1);
    }
}

/// The height of a tree, or nothing where its ways visit more nodes than it has.
fn tree_height(nodes: &Vec<Node>, Ghost(n_features): Ghost<int>) -> (r: Option<usize>)
    requires
        nodes@.len() > 0,
        nodes_ok(nodes@, n_features),
    ensures
        match r {
            None => !acyclic(nodes@),
            Some(h) => acyclic(nodes@) && h == height(nodes@, 0, nodes@.len() as int),
        },
{
    let n: usize = nodes.len();
    let mut max_depth: usize = 0;
    let mut visited: usize = 0;
    let mut stack: Vec<(usize, usize)> = Vec::new();
    stack.push((0, 0));
    proof {
        let empty = Seq::<(usize, usize)>::empty();
        assert(stack@ =~= empty.push((0usize, 0usize)));
        lemma_stack_push(nodes@, empty, (0, 0));
        lemma_height_below_unfolded(nodes@, 0, n as int);
    }
    while stack.len() > 0
        invariant
            n == nodes@.len(),
            nodes_ok(nodes@, n_features),
            visited <= n,
            forall|i: int|
                0 <= i < stack@.len() ==> (#[trigger] stack@[i]).0 < n && stack@[i].1 <= visited,
            visited + stack_size(nodes@, stack@) == unfolded(nodes@, 0, n as int),
            height(nodes@, 0, n as int) == if max_depth >= stack_height(nodes@, stack@) {
                max_depth as int
            } else {
                stack_height(nodes@, stack@)
            },
        decreases n - visited,
    {
        let top: usize = stack.len() - 1;
        let (id, depth): (usize, usize) = stack[top];
        let ghost before = stack@;
        stack.truncate(top);
        proof {
            assert(before =~= stack@.push((id, depth)));
            lemma_stack_push(nodes@, stack@, (id, depth));
            lemma_unfolded_positive(nodes@, id as int, n - depth);
            lemma_stack_size_nonnegative(nodes@, stack@);
            lemma_height_below_unfolded(nodes@, id as int, n - depth);
        }
        if visited == n {
            return None;
        }
        visited += 1;
        if depth > max_depth {
            max_depth = depth;
        }
        let node: Node = nodes[id];
        assert(node_ok(nodes@[id as int], n as int, n_features));
        if !node.is_leaf {
            let l: (usize, usize) = (node.left as usize, depth + 1);
            let r: (usize, usize) = (node.right as usize, depth + 1);
            proof {
                lemma_stack_push(nodes@, stack@, l);
                lemma_stack_push(nodes@, stack@.push(l), r);
                lemma_height_below_unfolded(nodes@, l.0 as int, n - depth - 1);
                lemma_height_below_unfolded(nodes@, r.0 as int, n - depth - 1);
            }
            stack.push(l);
            stack.push(r);
        }
    }
    Some(max_depth)
}

/// The nodes at depth `d` of the complete heap: a leaf above that depth is carried on to the
/// right, and nothing is carried to its left.
pub open spec fn level(nodes: Seq<Node>, d: int) -> Seq<Option<int>>
    decreases d,
{
    if d <= 0 {
        seq![Some(0)]
    } else {
        let up = level(nodes, d - 1);
        Seq::new(2 * up.len(), |q: int| child_of(nodes, up[q / 2], q % 2))
    }
}

/// What lies below a place of the heap, on the left (0) or on the right (1).
pub open spec fn child_of(nodes: Seq<Node>, parent: Option<int>, side: int) -> Option<int> {
    match parent {
        None => None,
        Some(id) => if nodes[id].is_leaf {
            if side == 0 {
                None
            } else {
                Some(id)
            }
        } else if side == 0 {
            Some(nodes[id].left as int)
        } else {
            Some(nodes[id].right as int)
        },
    }
}

proof fn lemma_level_len(nodes: Seq<Node>, d: int)
    requires
        d >= 0,
    ensures
        level(nodes, d).len() == pow2(d as nat),
    decreases d,
{
    if d == 0 {
        vstd::arithmetic::power2::lemma2_to64();
    } else {
        lemma_level_len(nodes, d - 1);
        vstd::arithmetic::power2::lemma_pow2_unfold(d as nat);
    }
}

/// A tree in a form that is fast to traverse.
pub struct CpuInferenceTree {
    pub features: Vec<u32>,
    pub split_conditions: Vec<F32>,
    /// Heap layout: where missing values go.
    pub default_left: Vec<u8>,
    /// Linked layout: children, and flags for "leaf" (1) and "missing goes left" (2).
    pub left_children: Vec<u32>,
    pub right_children: Vec<u32>,
    pub flags: Vec<u8>,
    pub leaf_values: Vec<F32>,
    pub max_depth: usize,
}

/// A place of the heap holds this split; where there is none, it sends every value right.
pub open spec fn is_entry(
    nodes: Seq<Node>,
    at: Option<int>,
    feat: u32,
    split: F32,
    default_left: u8,
) -> bool {
    if at matches Some(id) && !nodes[id].is_leaf {
        let n = nodes[at->0];
        feat == n.feat && split == n.split_cond && default_left == if n.default_left {
            1u8
        } else {
            0u8
        }
    } else {
        feat == 0 && split.bits == NAN_BITS && default_left == 0
    }
}

/// The splits of depth `d` are stored in their places.
pub open spec fn level_stored(
    nodes: Seq<Node>,
    features: Seq<u32>,
    splits: Seq<F32>,
    defaults: Seq<u8>,
    d: int,
) -> bool {
    forall|p: int|
        #![trigger level(nodes, d)[p]]
        0 <= p < level(nodes, d).len() ==> {
            let i = level(nodes, d).len() - 1 + p;
            is_entry(nodes, level(nodes, d)[p], features[i], splits[i], defaults[i])
        }
}

impl CpuInferenceTree {
    /// Is the tree laid out as a heap?
    pub open spec fn is_heap(&self) -> bool {
        self.max_depth <= MAX_HEAP_DEPTH
    }

    /// The arrays fit together and every number in them is in range.
    pub open spec fn wf(&self, n_features: int) -> bool {
        if self.is_heap() {
            let inner = pow2(self.max_depth as nat) - 1;
            &&& self.features@.len() == inner
            &&& self.split_conditions@.len() == inner
            &&& self.default_left@.len() == inner
            &&& self.leaf_values@.len() == inner + 1
            &&& forall|i: int| 0 <= i < inner ==> #[trigger] self.features@[i] < n_features
        } else {
            let n = self.flags@.len() as int;
            &&& 0 < n <= i32::MAX
            &&& self.features@.len() == n
            &&& self.split_conditions@.len() == n
            &&& self.left_children@.len() == n
            &&& self.right_children@.len() == n
            &&& self.leaf_values@.len() == n
            &&& forall|i: int|
                0 <= i < n && (#[trigger] self.flags@[i]) % 2 == 0 ==> self.features@[i]
                    < n_features && self.left_children@[i] < n && self.right_children@[i] < n
        }
    }

    /// Does a row go left at entry `i`?
    pub open spec fn entry_left(&self, i: int, row: Seq<F32>) -> bool {
        let v = row[self.features@[i] as int];
        if v.nan() {
            if self.is_heap() {
                self.default_left@[i] != 0
            } else {
                self.flags@[i] / 2 % 2 == 1
            }
        } else {
            v.lt(self.split_conditions@[i])
        }
    }

    /// Where a row is after `k` levels: a place within its level (heap) or a node (linked).
    pub open spec fn place(&self, row: Seq<F32>, k: int) -> int
        decreases k,
    {
        if k <= 0 {
            0
        } else {
            let p = self.place(row, k - 1);
            if self.is_heap() {
                let i = pow2((k - 1) as nat) - 1 + p;
                2 * p + if self.entry_left(i, row) {
                    0int
                } else {
                    1
                }
            } else if self.flags@[p] % 2 == 1 {
                p
            } else if self.entry_left(p, row) {
                self.left_children@[p] as int
            } else {
                self.right_children@[p] as int
            }
        }
    }

    /// The value of the leaf that a row reaches.
    pub open spec fn spec_leaf(&self, row: Seq<F32>) -> F32 {
        self.leaf_values@[self.place(row, self.max_depth as int)]
    }

    /// No missing value goes left.
    pub open spec fn sends_missing_right(&self) -> bool {
        if self.is_heap() {
            forall|i: int| 0 <= i < self.default_left@.len() ==> #[trigger] self.default_left@[i] == 0
        } else {
            forall|i: int|
                0 <= i < self.flags@.len() && (#[trigger] self.flags@[i]) % 2 == 0
                    ==> self.flags@[i] / 2 % 2 == 0
        }
    }
}

/// No split sends missing values left.
pub open spec fn no_default_left(nodes: Seq<Node>) -> bool {
    forall|i: int| 0 <= i < nodes.len() && !(#[trigger] nodes[i]).is_leaf ==> !nodes[i].default_left
}

/// Places of the heap that hold a node hold one of the tree.
proof fn lemma_level_in_range(nodes: Seq<Node>, n_features: int, d: int)
    requires
        nodes.len() > 0,
        nodes_ok(nodes, n_features),
        d >= 0,
    ensures
        forall|p: int|
            0 <= p < level(nodes, d).len() ==> (#[trigger] level(nodes, d)[p] matches Some(id)
                ==> 0 <= id < nodes.len()),
    decreases d,
{
    if d > 0 {
        lemma_level_in_range(nodes, n_features, d - 1);
        let up = level(nodes, d - 1);
        assert forall|p: int| 0 <= p < level(nodes, d).len() implies (#[trigger] level(
            nodes,
            d,
        )[p] matches Some(id) ==> 0 <= id < nodes.len()) by {
            assert(level(nodes, d)[p] == child_of(nodes, up[p / 2], p % 2));
            assert(0 <= p / 2 < up.len());
            let parent = up[p / 2];
            if parent is Some {
                assert(node_ok(nodes[parent->0], nodes.len() as int, n_features));
            }
        }
    }
}

/// In the heap a row is where a walk down the tree is.
proof fn lemma_heap_place(t: CpuInferenceTree, nodes: Seq<Node>, row: Seq<F32>, k: int)
    requires
        t.is_heap(),
        0 <= k <= t.max_depth,
        forall|d: int|
            0 <= d < t.max_depth ==> #[trigger] level_stored(
                nodes,
                t.features@,
                t.split_conditions@,
                t.default_left@,
                d,
            ),
    ensures
        0 <= t.place(row, k) < pow2(k as nat),
        level(nodes, k)[t.place(row, k)] == Some(walk(nodes, row, 0, k)),
    decreases k,
{
    lemma_level_len(nodes, k);
    if k == 0 {
        vstd::arithmetic::power2::lemma2_to64();
    } else {
        lemma_heap_place(t, nodes, row, k - 1);
        lemma_level_len(nodes, k - 1);
        vstd::arithmetic::power2::lemma_pow2_unfold(k as nat);
        let p = t.place(row, k - 1);
        let id = walk(nodes, row, 0, k - 1);
        let i = pow2((k - 1) as nat) - 1 + p;
        assert(level_stored(nodes, t.features@, t.split_conditions@, t.default_left@, k - 1));
        assert(level(nodes, k - 1)[p] == Some(id));
        let q = t.place(row, k);
        assert(q / 2 == p);
        assert(level(nodes, k)[q] == child_of(nodes, level(nodes, k - 1)[q / 2], q % 2));
    }
}

/// In the linked layout a row is where a walk down the tree is.
proof fn lemma_linked_place(t: CpuInferenceTree, nodes: Seq<Node>, row: Seq<F32>, k: int, nf: int)
    requires
        !t.is_heap(),
        nodes.len() > 0,
        nodes_ok(nodes, nf),
        is_linked(t, nodes),
    ensures
        t.place(row, k) == walk(nodes, row, 0, k),
        0 <= t.place(row, k) < nodes.len(),
    decreases k,
{
    if k > 0 {
        lemma_linked_place(t, nodes, row, k - 1, nf);
        let p = t.place(row, k - 1);
        assert(node_ok(nodes[p], nodes.len() as int, nf));
        assert(linked_entry(t, nodes, p));
    }
}

/// Entry `i` of the linked layout is node `i`.
pub open spec fn linked_entry(t: CpuInferenceTree, nodes: Seq<Node>, i: int) -> bool {
    let n = nodes[i];
    &&& t.features@[i] == n.feat
    &&& t.split_conditions@[i] == n.split_cond
    &&& t.flags@[i] == (if n.is_leaf {
        1int
    } else {
        0
    }) + (if n.default_left {
        2int
    } else {
        0
    })
    &&& !n.is_leaf ==> t.left_children@[i] == n.left && t.right_children@[i] == n.right
    &&& t.leaf_values@[i] == n.leaf_value
}

/// The linked layout holds every node.
pub open spec fn is_linked(t: CpuInferenceTree, nodes: Seq<Node>) -> bool {
    &&& t.flags@.len() == nodes.len()
    &&& t.features@.len() == nodes.len()
    &&& t.split_conditions@.len() == nodes.len()
    &&& t.left_children@.len() == nodes.len()
    &&& t.right_children@.len() == nodes.len()
    &&& t.leaf_values@.len() == nodes.len()
    &&& forall|i: int| 0 <= i < nodes.len() ==> #[trigger] linked_entry(t, nodes, i)
}

/// The heap layout of a tree.
fn heap_layout(nodes: &Vec<Node>, max_depth: usize, Ghost(nf): Ghost<int>) -> (t: CpuInferenceTree)
    requires
        nodes@.len() > 0,
        nodes_ok(nodes@, nf),
        nf > 0 || max_depth == 0,
        max_depth <= MAX_HEAP_DEPTH,
    ensures
        t.max_depth == max_depth,
        t.wf(nf),
        forall|d: int|
            0 <= d < max_depth ==> #[trigger] level_stored(
                nodes@,
                t.features@,
                t.split_conditions@,
                t.default_left@,
                d,
            ),
        forall|p: int|
            #![trigger level(nodes@, max_depth as int)[p]]
            0 <= p < level(nodes@, max_depth as int).len() ==> (level(
                nodes@,
                max_depth as int,
            )[p] matches Some(id) ==> t.leaf_values@[p] == nodes@[id].leaf_value),
        no_default_left(nodes@) ==> t.sends_missing_right(),
{
    let mut features: Vec<u32> = Vec::new();
    let mut splits: Vec<F32> = Vec::new();
    let mut defaults: Vec<u8> = Vec::new();
    let mut cur: Vec<Option<usize>> = Vec::new();
    cur.push(Some(0));
    let mut depth: usize = 0;
    proof {
        vstd::arithmetic::power2::lemma2_to64();
    }
    while depth < max_depth
        invariant
            nodes@.len() > 0,
            nodes_ok(nodes@, nf),
            nf > 0 || max_depth == 0,
            depth <= max_depth <= MAX_HEAP_DEPTH,
            cur@.len() == level(nodes@, depth as int).len(),
            cur@.len() == pow2(depth as nat),
            cur@.len() <= 64,
            forall|p: int|
                0 <= p < cur@.len() ==> same_place(
                    #[trigger] cur@[p],
                    level(nodes@, depth as int)[p],
                ),
            features@.len() == cur@.len() - 1,
            splits@.len() == cur@.len() - 1,
            defaults@.len() == cur@.len() - 1,
            forall|i: int| 0 <= i < features@.len() ==> #[trigger] features@[i] < nf,
            no_default_left(nodes@) ==> forall|i: int|
                0 <= i < defaults@.len() ==> #[trigger] defaults@[i] == 0,
            forall|d: int|
                0 <= d < depth ==> #[trigger] level_stored(
                    nodes@,
                    features@,
                    splits@,
                    defaults@,
                    d,
                ),
        decreases max_depth - depth,
    {
        let mut next: Vec<Option<usize>> = Vec::new();
        let width: usize = cur.len();
        let ghost f0 = features@;
        let ghost s0 = splits@;
        let ghost d0 = defaults@;
        let ghost here = level(nodes@, depth as int);
        let ghost below = level(nodes@, depth + 1);
        let mut p: usize = 0;
        while p < width
            invariant
                nodes@.len() > 0,
                nodes_ok(nodes@, nf),
                nf > 0,
                p <= width,
                width == cur@.len(),
                width <= 64,
                here == level(nodes@, depth as int),
                below == level(nodes@, depth + 1),
                here.len() == width,
                depth >= 0,
                forall|q: int| 0 <= q < width ==> same_place(#[trigger] cur@[q], here[q]),
                f0.len() == width - 1,
                s0.len() == width - 1,
                d0.len() == width - 1,
                features@.len() == width - 1 + p,
                splits@.len() == width - 1 + p,
                defaults@.len() == width - 1 + p,
                features@.take(width - 1) == f0,
                splits@.take(width - 1) == s0,
                defaults@.take(width - 1) == d0,
                forall|i: int| 0 <= i < features@.len() ==> #[trigger] features@[i] < nf,
                no_default_left(nodes@) ==> forall|i: int|
                    0 <= i < defaults@.len() ==> #[trigger] defaults@[i] == 0,
                forall|q: int|
                    #![trigger here[q]]
                    0 <= q < p ==> is_entry(
                        nodes@,
                        here[q],
                        features@[width - 1 + q],
                        splits@[width - 1 + q],
                        defaults@[width - 1 + q],
                    ),
                next@.len() == 2 * p,
                forall|q: int| 0 <= q < next@.len() ==> same_place(#[trigger] next@[q], below[q]),
            decreases width - p,
        {
            assert(same_place(cur@[p as int], here[p as int]));
            proof {
                lemma_level_in_range(nodes@, nf, depth as int);
                let a = 2 * p;
                let b = 2 * p + 1;
                assert(a / 2 == p && a % 2 == 0);
                assert(b / 2 == p && b % 2 == 1);
                assert(below[a as int] == child_of(nodes@, here[p as int], 0));
                assert(below[b as int] == child_of(nodes@, here[p as int], 1));
            }
            let ghost before_f = features@;
            let ghost before_s = splits@;
            let ghost before_d = defaults@;
            match cur[p] {
                None => {
                    features.push(0);
                    splits.push(F32 { bits: NAN_BITS });
                    defaults.push(0);
                    next.push(None);
                    next.push(None);
                },
                Some(id) => {
                    let node: Node = nodes[id];
                    assert(node_ok(nodes@[id as int], nodes@.len() as int, nf));
                    if node.is_leaf {
                        features.push(0);
                        splits.push(F32 { bits: NAN_BITS });
                        defaults.push(0);
                        next.push(None);
                        next.push(Some(id));
                    } else {
                        features.push(node.feat);
                        splits.push(node.split_cond);
                        if node.default_left {
                            defaults.push(1);
                        } else {
                            defaults.push(0);
                        }
                        next.push(Some(node.left as usize));
                        next.push(Some(node.right as usize));
                    }
                },
            }
            proof {
                assert(features@.take(width - 1) =~= before_f.take(width - 1));
                assert(splits@.take(width - 1) =~= before_s.take(width - 1));
                assert(defaults@.take(width - 1) =~= before_d.take(width - 1));
                assert forall|q: int| #![trigger here[q]] 0 <= q < p + 1 implies is_entry(
                    nodes@,
                    here[q],
                    features@[width - 1 + q],
                    splits@[width - 1 + q],
                    defaults@[width - 1 + q],
                ) by {
                    if q < p {
                        assert(features@[width - 1 + q] == before_f[width - 1 + q]);
                        assert(splits@[width - 1 + q] == before_s[width - 1 + q]);
                        assert(defaults@[width - 1 + q] == before_d[width - 1 + q]);
                    }
                }
            }
            p += 1;
        }
        proof {
            lemma_level_len(nodes@, depth + 1);
            vstd::arithmetic::power2::lemma_pow2_unfold((depth + 1) as nat);
            lemma_heap_width(depth + 1);
            assert forall|d: int| 0 <= d < depth + 1 implies #[trigger] level_stored(
                nodes@,
                features@,
                splits@,
                defaults@,
                d,
            ) by {
                if d < depth {
                    assert(level_stored(nodes@, f0, s0, d0, d));
                    lemma_level_len(nodes@, d);
                    lemma_level_len(nodes@, d + 1);
                    vstd::arithmetic::power2::lemma_pow2_unfold((d + 1) as nat);
                    if d + 1 < depth {
                        vstd::arithmetic::power2::lemma_pow2_strictly_increases(
                            (d + 1) as nat,
                            depth as nat,
                        );
                    }
                    assert forall|q: int|
                        #![trigger level(nodes@, d)[q]]
                        0 <= q < level(nodes@, d).len() implies ({
                        let i = level(nodes@, d).len() - 1 + q;
                        is_entry(
                            nodes@,
                            level(nodes@, d)[q],
                            features@[i],
                            splits@[i],
                            defaults@[i],
                        )
                    }) by {
                        let i = level(nodes@, d).len() - 1 + q;
                        assert(features@.take(width - 1)[i] == features@[i]);
                        assert(splits@.take(width - 1)[i] == splits@[i]);
                        assert(defaults@.take(width - 1)[i] == defaults@[i]);
                    }
                }
            }
        }
        cur = next;
        depth += 1;
    }
    let mut leaf_values: Vec<F32> = Vec::new();
    proof {
        lemma_level_in_range(nodes@, nf, max_depth as int);
    }
    let mut p: usize = 0;
    while p < cur.len()
        invariant
            p <= cur@.len(),
            nodes@.len() > 0,
            leaf_values@.len() == p,
            cur@.len() == level(nodes@, max_depth as int).len(),
            forall|q: int|
                0 <= q < cur@.len() ==> same_place(
                    #[trigger] cur@[q],
                    level(nodes@, max_depth as int)[q],
                ),
            forall|q: int|
                #![trigger level(nodes@, max_depth as int)[q]]
                0 <= q < cur@.len() ==> (level(nodes@, max_depth as int)[q] matches Some(id) ==> 0
                    <= id < nodes@.len()),
            forall|q: int|
                #![trigger level(nodes@, max_depth as int)[q]]
                0 <= q < p ==> (level(nodes@, max_depth as int)[q] matches Some(id)
                    ==> leaf_values@[q] == nodes@[id].leaf_value),
        decreases cur.len() - p,
    {
        assert(same_place(cur@[p as int], level(nodes@, max_depth as int)[p as int]));
        match cur[p] {
            None => {
                leaf_values.push(F32 { bits: 0 });
            },
            Some(id) => {
                leaf_values.push(nodes[id].leaf_value);
            },
        }
        p += 1;
    }
    CpuInferenceTree {
        features,
        split_conditions: splits,
        default_left: defaults,
        left_children: Vec::new(),
        right_children: Vec::new(),
        flags: Vec::new(),
        leaf_values,
        max_depth,
    }
}

/// The same place, as a machine number and as an integer.
spec fn same_place(a: Option<usize>, b: Option<int>) -> bool {
    match a {
        None => b is None,
        Some(x) => b == Some(x as int),
    }
}

proof fn lemma_heap_width(d: int)
    requires
        0 <= d <= MAX_HEAP_DEPTH,
    ensures
        1 <= pow2(d as nat) <= 64,
{
    vstd::arithmetic::power2::lemma2_to64();
}

/// The linked layout of a tree.
fn linked_layout(nodes: &Vec<Node>, max_depth: usize, Ghost(nf): Ghost<int>) -> (t:
    CpuInferenceTree)
    requires
        nodes@.len() > 0,
        nodes_ok(nodes@, nf),
        max_depth > MAX_HEAP_DEPTH,
        nodes@.len() <= i32::MAX,
    ensures
        t.max_depth == max_depth,
        t.wf(nf),
        is_linked(t, nodes@),
        no_default_left(nodes@) ==> t.sends_missing_right(),
{
    let n: usize = nodes.len();
    let mut t: CpuInferenceTree = CpuInferenceTree {
        features: Vec::new(),
        split_conditions: Vec::new(),
        default_left: Vec::new(),
        left_children: Vec::new(),
        right_children: Vec::new(),
        flags: Vec::new(),
        leaf_values: Vec::new(),
        max_depth,
    };
    let mut i: usize = 0;
    while i < n
        invariant
            n == nodes@.len(),
            nodes_ok(nodes@, nf),
            n <= i32::MAX,
            i <= n,
            t.max_depth == max_depth,
            t.flags@.len() == i,
            t.features@.len() == i,
            t.split_conditions@.len() == i,
            t.left_children@.len() == i,
            t.right_children@.len() == i,
            t.leaf_values@.len() == i,
            forall|k: int| 0 <= k < i ==> #[trigger] linked_entry(t, nodes@, k),
        decreases n - i,
    {
        let node: Node = nodes[i];
        assert(node_ok(nodes@[i as int], n as int, nf));
        let ghost before = t;
        t.features.push(node.feat);
        t.split_conditions.push(node.split_cond);
        t.left_children.push(
            if node.is_leaf {
                0
            } else {
                node.left as u32
            },
        );
        t.right_children.push(
            if node.is_leaf {
                0
            } else {
                node.right as u32
            },
        );
        let leaf_flag: u8 = if node.is_leaf {
            1
        } else {
            0
        };
        let default_flag: u8 = if node.default_left {
            2
        } else {
            0
        };
        t.flags.push(leaf_flag + default_flag);
        t.leaf_values.push(node.leaf_value);
        proof {
            assert forall|k: int| 0 <= k < i + 1 implies #[trigger] linked_entry(t, nodes@, k) by {
                if k < i {
                    assert(linked_entry(before, nodes@, k));
                }
            }
        }
        i += 1;
    }
    proof {
        assert forall|k: int| 0 <= k < n && (#[trigger] t.flags@[k]) % 2 == 0 implies t.features@[k]
            < nf && t.left_children@[k] < n && t.right_children@[k] < n by {
            assert(linked_entry(t, nodes@, k));
            assert(node_ok(nodes@[k], n as int, nf));
        }
        if no_default_left(nodes@) {
            assert forall|k: int| 0 <= k < n && (#[trigger] t.flags@[k]) % 2 == 0 implies t.flags@[k]
                / 2 % 2 == 0 by {
                assert(linked_entry(t, nodes@, k));
                assert(!nodes@[k].is_leaf);
            }
        }
    }
    t
}

impl CpuInferenceTree {
    /// Every row reaches the leaf that a walk down the tree reaches.
    pub open spec fn represents(&self, nodes: Seq<Node>) -> bool {
        forall|row: Seq<F32>| #[trigger] self.spec_leaf(row) == leaf_value_of(nodes, row)
    }

    /// Checks a tree and lays it out.
    pub fn new(tree: &Tree, n_features: usize) -> (r: Result<CpuInferenceTree, InferenceError>)
        requires
            tree.nodes@.len() <= i32::MAX,
        ensures
            r is Ok <==> tree_ok(tree.nodes@, n_features as int),
            r matches Ok(t) ==> {
                &&& t.wf(n_features as int)
                &&& t.max_depth == height(tree.nodes@, 0, tree.nodes@.len() as int)
                &&& t.represents(tree.nodes@)
                &&& no_default_left(tree.nodes@) ==> t.sends_missing_right()
            },
            r matches Err(e) ==> is_tree_error(tree.nodes@, n_features as int, e),
    {
        let nodes: &Vec<Node> = &tree.nodes;
        if nodes.len() == 0 {
            return Err(InferenceError::EmptyTree);
        }
        match check_nodes(nodes, n_features) {
            Some(e) => {
                return Err(e);
            },
            None => {},
        }
        let max_depth: usize = match tree_height(nodes, Ghost(n_features as int)) {
            Some(h) => h,
            None => {
                return Err(InferenceError::ChildCycle);
            },
        };
        proof {
            lemma_acyclic_walks_end(nodes@);
        }
        assert(n_features == 0 ==> max_depth == 0) by {
            assert(node_ok(nodes@[0], nodes@.len() as int, n_features as int));
        }
        if max_depth <= MAX_HEAP_DEPTH {
            let t: CpuInferenceTree = heap_layout(nodes, max_depth, Ghost(n_features as int));
            proof {
                assert forall|row: Seq<F32>| #[trigger] t.spec_leaf(row) == leaf_value_of(
                    nodes@,
                    row,
                ) by {
                    lemma_heap_place(t, nodes@, row, max_depth as int);
                    lemma_level_len(nodes@, max_depth as int);
                    law_walk_ends_within_the_height(nodes@, row, max_depth as int);
                    let p = t.place(row, max_depth as int);
                    assert(level(nodes@, max_depth as int)[p] is Some);
                }
            }
            Ok(t)
        } else {
            let t: CpuInferenceTree = linked_layout(nodes, max_depth, Ghost(n_features as int));
            proof {
                assert forall|row: Seq<F32>| #[trigger] t.spec_leaf(row) == leaf_value_of(
                    nodes@,
                    row,
                ) by {
                    lemma_linked_place(t, nodes@, row, max_depth as int, n_features as int);
                    law_walk_ends_within_the_height(nodes@, row, max_depth as int);
                    assert(linked_entry(t, nodes@, t.place(row, max_depth as int)));
                }
            }
            Ok(t)
        }
    }
}

/// One row of a row-major table.
pub open spec fn row_of(flat: Seq<F32>, n_features: int, r: int) -> Seq<F32> {
    flat.subrange(r * n_features, r * n_features + n_features)
}

/// A table of `n` rows.
pub open spec fn is_table(flat: Seq<F32>, n_features: int, n: int) -> bool {
    flat.len() == n * n_features
}

/// No value of the rows `r0 .. r1` is missing.
pub open spec fn none_missing(flat: Seq<F32>, n_features: int, r0: int, r1: int) -> bool {
    forall|i: int| r0 * n_features <= i < r1 * n_features ==> !(#[trigger] flat[i]).nan()
}

/// What `plus` returns for two numbers, with one NaN for all.
pub open spec fn sum_of<F: Fn(F32, F32) -> F32>(plus: F, a: F32, b: F32) -> F32 {
    (choose|r: F32| plus.ensures((a, b), r)).spec_settled()
}

/// `plus` takes any two numbers and has one result for each pair. Where that is NaN, it may be
/// another NaN each time.
pub open spec fn is_addition<F: Fn(F32, F32) -> F32>(plus: F) -> bool {
    &&& forall|a: F32, b: F32| #[trigger] plus.requires((a, b))
    &&& forall|a: F32, b: F32, r: F32, s: F32|
        #[trigger] plus.ensures((a, b), r) && #[trigger] plus.ensures((a, b), s) ==> r.alike(s)
}

/// A sum is what the given addition gives for the two numbers, in this order; where that is not a
/// number, the sum is not a number either.
pub proof fn law_sum_is_what_the_addition_gives<F: Fn(F32, F32) -> F32>(
    plus: F,
    a: F32,
    b: F32,
    r: F32,
)
    requires
        is_addition(plus),
        plus.ensures((a, b), r),
    ensures
        !r.nan() ==> sum_of(plus, a, b) == r,
        r.nan() ==> sum_of(plus, a, b).nan(),
        r.nan() ==> sum_of(plus, a, b).bits == 0x7FC0_0000,
{
    let s = choose|s: F32| plus.ensures((a, b), s);
    assert(plus.ensures((a, b), s));
    assert(r.alike(s));
}

/// The sum of two numbers, with one NaN for all.
pub(crate) fn add_settled<F: Fn(F32, F32) -> F32>(plus: &F, a: F32, b: F32) -> (r: F32)
    requires
        is_addition(*plus),
    ensures
        r == sum_of(*plus, a, b),
{
    plus(a, b).settled()
}

impl CpuInferenceTree {
    /// A row stays within the arrays.
    proof fn lemma_place_in_range(&self, n_features: int, row: Seq<F32>, k: int)
        requires
            self.wf(n_features),
            0 <= k,
            self.is_heap() ==> k <= self.max_depth,
        ensures
            self.is_heap() ==> 0 <= self.place(row, k) < pow2(k as nat),
            !self.is_heap() ==> 0 <= self.place(row, k) < self.flags@.len(),
        decreases k,
    {
        if k == 0 {
            vstd::arithmetic::power2::lemma2_to64();
        } else {
            self.lemma_place_in_range(n_features, row, k - 1);
            vstd::arithmetic::power2::lemma_pow2_unfold(k as nat);
        }
    }

    /// One level for one row of a heap.
    fn heap_step(
        &self,
        row_major: &[F32],
        n_features: usize,
        n_rows: usize,
        row: usize,
        depth: usize,
        first_node: usize,
        place: u32,
        any_missing: bool,
    ) -> (next: u32)
        requires
            self.wf(n_features as int),
            self.is_heap(),
            depth < self.max_depth,
            first_node == pow2(depth as nat) - 1,
            row < n_rows,
            is_table(row_major@, n_features as int, n_rows as int),
            row_major@.len() <= usize::MAX,
            place == self.place(row_of(row_major@, n_features as int, row as int), depth as int),
            any_missing || self.sends_missing_right() || none_missing(
                row_major@,
                n_features as int,
                row as int,
                row + 1,
            ),
        ensures
            next == self.place(
                row_of(row_major@, n_features as int, row as int),
                depth + 1,
            ),
    {
        let ghost this_row = row_of(row_major@, n_features as int, row as int);
        proof {
            self.lemma_place_in_range(n_features as int, this_row, depth as int);
            self.lemma_place_in_range(n_features as int, this_row, depth + 1);
            lemma_heap_width(depth as int);
            lemma_heap_width(depth + 1);
            lemma_heap_width(self.max_depth as int);
            vstd::arithmetic::power2::lemma_pow2_unfold((depth + 1) as nat);
            if depth + 1 < self.max_depth {
                vstd::arithmetic::power2::lemma_pow2_strictly_increases(
                    (depth + 1) as nat,
                    self.max_depth as nat,
                );
            }
            crate::columns::lemma_column_in_bounds(row as int, n_rows as int, n_features as int);
        }
        let node: usize = first_node + place as usize;
        let feat: usize = self.features[node] as usize;
        assert(self.features@[node as int] < n_features);
        let value: F32 = row_major[row * n_features + feat];
        assert(value == this_row[feat as int]);
        assert((row + 1) * n_features == row * n_features + n_features) by (nonlinear_arith);
        let go_left: bool = if any_missing && value.is_nan() {
            self.default_left[node] != 0
        } else {
            value.less(self.split_conditions[node])
        };
        assert(go_left == self.entry_left(node as int, this_row));
        if go_left {
            2 * place
        } else {
            2 * place + 1
        }
    }

    /// One level for one row of a linked tree.
    fn linked_step(
        &self,
        row_major: &[F32],
        n_features: usize,
        n_rows: usize,
        row: usize,
        depth: usize,
        place: u32,
        any_missing: bool,
    ) -> (next: u32)
        requires
            self.wf(n_features as int),
            !self.is_heap(),
            row < n_rows,
            is_table(row_major@, n_features as int, n_rows as int),
            row_major@.len() <= usize::MAX,
            place == self.place(row_of(row_major@, n_features as int, row as int), depth as int),
            any_missing || self.sends_missing_right() || none_missing(
                row_major@,
                n_features as int,
                row as int,
                row + 1,
            ),
        ensures
            next == self.place(
                row_of(row_major@, n_features as int, row as int),
                depth + 1,
            ),
    {
        let ghost this_row = row_of(row_major@, n_features as int, row as int);
        proof {
            self.lemma_place_in_range(n_features as int, this_row, depth as int);
            crate::columns::lemma_column_in_bounds(row as int, n_rows as int, n_features as int);
        }
        let node: usize = place as usize;
        let flags: u8 = self.flags[node];
        if flags % 2 == 1 {
            return place;
        }
        assert(self.flags@[node as int] % 2 == 0);
        let feat: usize = self.features[node] as usize;
        let value: F32 = row_major[row * n_features + feat];
        assert(value == this_row[feat as int]);
        assert((row + 1) * n_features == row * n_features + n_features) by (nonlinear_arith);
        let go_left: bool = if any_missing && value.is_nan() {
            flags / 2 % 2 == 1
        } else {
            value.less(self.split_conditions[node])
        };
        assert(go_left == self.entry_left(node as int, this_row));
        if go_left {
            self.left_children[node]
        } else {
            self.right_children[node]
        }
    }

    /// Adds this tree's leaf values to the margins of the rows `r0 .. r1`, which go down
    /// together level by level.
    fn add_block<F: Fn(F32, F32) -> F32>(
        &self,
        row_major: &[F32],
        n_features: usize,
        r0: usize,
        r1: usize,
        any_missing: bool,
        out: &mut Vec<F32>,
        plus: &F,
    )
        requires
            self.wf(n_features as int),
            r0 <= r1 <= old(out)@.len(),
            is_table(row_major@, n_features as int, old(out)@.len() as int),
            row_major@.len() <= usize::MAX,
            is_addition(*plus),
            any_missing || self.sends_missing_right() || none_missing(
                row_major@,
                n_features as int,
                r0 as int,
                r1 as int,
            ),
        ensures
            final(out)@.len() == old(out)@.len(),
            forall|r: int|
                0 <= r < old(out)@.len() && !(r0 <= r < r1) ==> #[trigger] final(out)@[r] == old(
                    out,
                )@[r],
            forall|r: int|
                r0 <= r < r1 ==> #[trigger] final(out)@[r] == sum_of(
                    *plus,
                    old(out)@[r],
                    self.spec_leaf(row_of(row_major@, n_features as int, r)),
                ),
    {
        let n: usize = r1 - r0;
        let n_rows: usize = out.len();
        let ghost nf = n_features as int;
        let mut places: Vec<u32> = Vec::new();
        let mut i: usize = 0;
        while i < n
            invariant
                i <= n,
                places@.len() == i,
                forall|k: int| 0 <= k < i ==> #[trigger] places@[k] == 0,
            decreases n - i,
        {
            places.push(0);
            i += 1;
        }
        let mut depth: usize = 0;
        let mut first_node: usize = 0;
        proof {
            vstd::arithmetic::power2::lemma2_to64();
        }
        while depth < self.max_depth
            invariant
                self.wf(nf),
                nf == n_features,
                depth <= self.max_depth,
                n == r1 - r0,
                r0 <= r1 <= n_rows,
                places@.len() == n,
                is_table(row_major@, nf, n_rows as int),
                row_major@.len() <= usize::MAX,
                self.is_heap() ==> first_node == pow2(depth as nat) - 1,
                any_missing || self.sends_missing_right() || none_missing(
                    row_major@,
                    nf,
                    r0 as int,
                    r1 as int,
                ),
                forall|k: int|
                    0 <= k < n ==> #[trigger] places@[k] == self.place(
                        row_of(row_major@, nf, r0 + k),
                        depth as int,
                    ),
            decreases self.max_depth - depth,
        {
            let mut i: usize = 0;
            while i < n
                invariant
                    self.wf(nf),
                    nf == n_features,
                    depth < self.max_depth,
                    n == r1 - r0,
                    r0 <= r1 <= n_rows,
                    i <= n,
                    places@.len() == n,
                    is_table(row_major@, nf, n_rows as int),
                    row_major@.len() <= usize::MAX,
                    self.is_heap() ==> first_node == pow2(depth as nat) - 1,
                    any_missing || self.sends_missing_right() || none_missing(
                        row_major@,
                        nf,
                        r0 as int,
                        r1 as int,
                    ),
                    forall|k: int|
                        0 <= k < i ==> #[trigger] places@[k] == self.place(
                            row_of(row_major@, nf, r0 + k),
                            depth + 1,
                        ),
                    forall|k: int|
                        i <= k < n ==> #[trigger] places@[k] == self.place(
                            row_of(row_major@, nf, r0 + k),
                            depth as int,
                        ),
                decreases n - i,
            {
                let row: usize = r0 + i;
                proof {
                    lemma_row_inside_block(nf, r0 as int, row as int, r1 as int);
                }
                let next: u32 = if self.max_depth <= MAX_HEAP_DEPTH {
                    self.heap_step(
                        row_major,
                        n_features,
                        n_rows,
                        row,
                        depth,
                        first_node,
                        places[i],
                        any_missing,
                    )
                } else {
                    self.linked_step(
                        row_major,
                        n_features,
                        n_rows,
                        row,
                        depth,
                        places[i],
                        any_missing,
                    )
                };
                places.set(i, next);
                i += 1;
            }
            if self.max_depth <= MAX_HEAP_DEPTH {
                proof {
                    vstd::arithmetic::power2::lemma_pow2_unfold((depth + 1) as nat);
                    lemma_heap_width(depth as int);
                }
                first_node = 2 * first_node + 1;
            }
            depth += 1;
        }
        let ghost before = out@;
        let mut i: usize = 0;
        while i < n
            invariant
                self.wf(nf),
                nf == n_features,
                n == r1 - r0,
                r0 <= r1 <= n_rows,
                i <= n,
                places@.len() == n,
                is_addition(*plus),
                before.len() == n_rows,
                out@.len() == n_rows,
                forall|k: int|
                    0 <= k < n ==> #[trigger] places@[k] == self.place(
                        row_of(row_major@, nf, r0 + k),
                        self.max_depth as int,
                    ),
                forall|r: int|
                    0 <= r < n_rows && !(r0 <= r < r0 + i) ==> #[trigger] out@[r] == before[r],
                forall|r: int|
                    r0 <= r < r0 + i ==> #[trigger] out@[r] == sum_of(
                        *plus,
                        before[r],
                        self.spec_leaf(row_of(row_major@, nf, r)),
                    ),
            decreases n - i,
        {
            let ghost this_row = row_of(row_major@, nf, r0 + i);
            proof {
                self.lemma_place_in_range(nf, this_row, self.max_depth as int);
                assert(places@[i as int] == self.place(this_row, self.max_depth as int));
            }
            let leaf: F32 = self.leaf_values[places[i] as usize];
            let old_margin: F32 = out[r0 + i];
            let sum: F32 = add_settled(plus, old_margin, leaf);
            out.set(r0 + i, sum);
            i += 1;
        }
    }
}

proof fn lemma_row_inside_block(nf: int, r0: int, row: int, r1: int)
    requires
        0 <= nf,
        0 <= r0 <= row < r1,
    ensures
        r0 * nf <= row * nf,
        (row + 1) * nf <= r1 * nf,
{
    assert(r0 * nf <= row * nf) by (nonlinear_arith)
        requires
            0 <= nf,
            r0 <= row,
    ;
    assert((row + 1) * nf <= r1 * nf) by (nonlinear_arith)
        requires
            0 <= nf,
            row + 1 <= r1,
    ;
}

/// A model in a form that is fast to predict with.
pub struct CpuInferenceModel {
    pub trees: Vec<CpuInferenceTree>,
    pub base_margin: F32,
    pub n_features: usize,
    /// Some split sends missing values left.
    pub needs_missing_check: bool,
}

/// The margin of a row after the first `k` trees, added up in their order.
pub open spec fn margin_after<F: Fn(F32, F32) -> F32>(
    trees: Seq<CpuInferenceTree>,
    base: F32,
    plus: F,
    row: Seq<F32>,
    k: int,
) -> F32
    decreases k,
{
    if k <= 0 {
        base
    } else {
        sum_of(plus, margin_after(trees, base, plus, row, k - 1), trees[k - 1].spec_leaf(row))
    }
}

/// The margin of a row after the first `k` trees of a model, one walk per tree.
pub open spec fn row_margin<F: Fn(F32, F32) -> F32>(
    trees: Seq<Tree>,
    base: F32,
    plus: F,
    row: Seq<F32>,
    k: int,
) -> F32
    decreases k,
{
    if k <= 0 {
        base
    } else {
        sum_of(plus, row_margin(trees, base, plus, row, k - 1), leaf_value_of(trees[k - 1].nodes@, row))
    }
}

/// `num` reads numbers as integers, and `plus` adds them exactly as long as operands and sum stay
/// from `lo` to `hi`.
pub open spec fn adds_exactly<F: Fn(F32, F32) -> F32>(
    plus: F,
    num: spec_fn(F32) -> int,
    lo: int,
    hi: int,
) -> bool {
    forall|a: F32, b: F32|
        lo <= num(a) <= hi && lo <= num(b) <= hi && lo <= num(a) + num(b) <= hi ==> num(
            #[trigger] sum_of(plus, a, b),
        ) == num(a) + num(b)
}

/// The leaf values of the first `k` trees for a row, read as integers and added up.
pub open spec fn leaf_total(
    trees: Seq<Tree>,
    num: spec_fn(F32) -> int,
    row: Seq<F32>,
    k: int,
) -> int
    decreases k,
{
    if k <= 0 {
        0
    } else {
        leaf_total(trees, num, row, k - 1) + num(leaf_value_of(trees[k - 1].nodes@, row))
    }
}

/// A margin is the base and one leaf value of each of the first trees: where the caller's addition
/// is exact, it is their sum.
pub proof fn law_margin_adds_a_leaf_of_each_tree<F: Fn(F32, F32) -> F32>(
    trees: Seq<Tree>,
    base: F32,
    plus: F,
    num: spec_fn(F32) -> int,
    lo: int,
    hi: int,
    row: Seq<F32>,
    k: int,
)
    requires
        0 <= k <= trees.len(),
        adds_exactly(plus, num, lo, hi),
        forall|t: int|
            0 <= t < k ==> lo <= num(leaf_value_of((#[trigger] trees[t]).nodes@, row)) <= hi,
        forall|t: int|
            0 <= t <= k ==> lo <= num(base) + #[trigger] leaf_total(trees, num, row, t) <= hi,
    ensures
        num(row_margin(trees, base, plus, row, k)) == num(base) + leaf_total(trees, num, row, k),
    decreases k,
{
    if k > 0 {
        law_margin_adds_a_leaf_of_each_tree(trees, base, plus, num, lo, hi, row, k - 1);
        assert(lo <= num(base) + leaf_total(trees, num, row, k - 1) <= hi);
        assert(lo <= num(base) + leaf_total(trees, num, row, k) <= hi);
        assert(lo <= num(leaf_value_of(trees[k - 1].nodes@, row)) <= hi);
    }
}

/// Margins can be carried on: the margin after the first trees is where the margin of the trees
/// that follow starts. No trees leave the base as it is, and trees further on do not matter.
pub proof fn law_margins_can_be_carried_on<F: Fn(F32, F32) -> F32>(
    trees: Seq<Tree>,
    base: F32,
    plus: F,
    row: Seq<F32>,
    j: int,
    k: int,
)
    requires
        0 <= j,
        0 <= k,
        j + k <= trees.len(),
    ensures
        row_margin(trees, base, plus, row, 0) == base,
        row_margin(trees, base, plus, row, j + k) == row_margin(
            trees.skip(j),
            row_margin(trees, base, plus, row, j),
            plus,
            row,
            k,
        ),
    decreases k,
{
    if k > 0 {
        law_margins_can_be_carried_on(trees, base, plus, row, j, k - 1);
        assert(trees.skip(j)[k - 1] == trees[j + k - 1]);
    }
}

impl CpuInferenceModel {
    /// The trees fit the features, and the flag says whether missing values matter.
    pub open spec fn wf(&self) -> bool {
        &&& self.n_features > 0
        &&& forall|t: int|
            0 <= t < self.trees@.len() ==> (#[trigger] self.trees@[t]).wf(self.n_features as int)
        &&& !self.needs_missing_check ==> forall|t: int|
            0 <= t < self.trees@.len() ==> (#[trigger] self.trees@[t]).sends_missing_right()
    }

    /// What prediction leaves in `after` where `before` was: the margin of each row with the
    /// first `n_trees` trees, or all of them where there are fewer. A table of another shape is
    /// refused, and nothing is written.
    pub open spec fn predicts<F: Fn(F32, F32) -> F32>(
        &self,
        row_major: Seq<F32>,
        n_features: usize,
        n_trees: usize,
        plus: F,
        before: Seq<F32>,
        after: Seq<F32>,
        r: Result<(), InferenceError>,
    ) -> bool {
        let expected = before.len() * n_features;
        &&& after.len() == before.len()
        &&& match r {
            Ok(()) => n_features == self.n_features && row_major.len() == expected && forall|i: int|
                0 <= i < before.len() ==> #[trigger] after[i] == margin_after(
                    self.trees@,
                    self.base_margin,
                    plus,
                    row_of(row_major, n_features as int, i),
                    imin(n_trees as int, self.trees@.len() as int),
                ),
            Err(e) => after == before && if n_features != self.n_features {
                e == InferenceError::InputFeatures { got: n_features, expected: self.n_features }
            } else if expected > usize::MAX {
                e == InferenceError::InputOverflow
            } else {
                row_major.len() != expected && e == InferenceError::InputLength {
                    got: row_major.len() as usize,
                    rows: before.len() as usize,
                    features: n_features,
                    expected: expected as usize,
                }
            },
        }
    }

    /// Every tree gives every row the value that a walk gives it.
    pub open spec fn represents(&self, trees: Seq<Tree>) -> bool {
        &&& self.trees@.len() == trees.len()
        &&& forall|t: int|
            0 <= t < trees.len() ==> (#[trigger] self.trees@[t]).represents(trees[t].nodes@)
    }

    /// Checks a model and lays out its trees. `base_margin` is where every margin starts.
    pub fn new(model: &Model, base_margin: F32) -> (r: Result<CpuInferenceModel, InferenceError>)
        requires
            forall|t: int|
                0 <= t < model.trees@.len() ==> (#[trigger] model.trees@[t]).nodes@.len()
                    <= i32::MAX,
        ensures
            r is Ok <==> model.n_features > 0 && forall|t: int|
                0 <= t < model.trees@.len() ==> tree_ok(
                    (#[trigger] model.trees@[t]).nodes@,
                    model.n_features as int,
                ),
            r matches Ok(m) ==> {
                &&& m.wf()
                &&& m.represents(model.trees@)
                &&& m.n_features == model.n_features
                &&& m.base_margin == base_margin
            },
            r matches Err(e) ==> if model.n_features == 0 {
                e == InferenceError::NoFeatures
            } else {
                exists|t: int|
                    {
                        &&& 0 <= t < model.trees@.len()
                        &&& !tree_ok(
                            (#[trigger] model.trees@[t]).nodes@,
                            model.n_features as int,
                        )
                        &&& is_tree_error(model.trees@[t].nodes@, model.n_features as int, e)
                        &&& forall|u: int|
                            0 <= u < t ==> tree_ok(
                                (#[trigger] model.trees@[u]).nodes@,
                                model.n_features as int,
                            )
                    }
            },
    {
        if model.n_features == 0 {
            return Err(InferenceError::NoFeatures);
        }
        let nf: usize = model.n_features;
        let mut trees: Vec<CpuInferenceTree> = Vec::new();
        let mut needs: bool = false;
        let mut t: usize = 0;
        while t < model.trees.len()
            invariant
                t <= model.trees@.len(),
                nf == model.n_features,
                nf > 0,
                forall|u: int|
                    0 <= u < model.trees@.len() ==> (#[trigger] model.trees@[u]).nodes@.len()
                        <= i32::MAX,
                trees@.len() == t,
                forall|u: int|
                    0 <= u < t ==> tree_ok((#[trigger] model.trees@[u]).nodes@, nf as int),
                forall|u: int| 0 <= u < t ==> (#[trigger] trees@[u]).wf(nf as int),
                forall|u: int|
                    0 <= u < t ==> (#[trigger] trees@[u]).represents(model.trees@[u].nodes@),
                !needs ==> forall|u: int| 0 <= u < t ==> (#[trigger] trees@[u]).sends_missing_right(),
            decreases model.trees.len() - t,
        {
            let tree: &Tree = &model.trees[t];
            match CpuInferenceTree::new(tree, nf) {
                Ok(it) => {
                    if has_default_left(&tree.nodes) {
                        needs = true;
                    }
                    trees.push(it);
                },
                Err(e) => {
                    assert(!tree_ok(model.trees@[t as int].nodes@, nf as int));
                    return Err(e);
                },
            }
            t += 1;
        }
        Ok(
            CpuInferenceModel {
                trees,
                base_margin,
                n_features: nf,
                needs_missing_check: needs,
            },
        )
    }

    /// The margins of many rows, with the first `n_trees` trees. `plus` is the addition of
    /// the caller's arithmetic; it is applied tree by tree in order.
    pub fn predict_margins<F: Fn(F32, F32) -> F32>(
        &self,
        row_major: &[F32],
        n_features: usize,
        n_trees: usize,
        plus: F,
        out: &mut Vec<F32>,
    ) -> (r: Result<(), InferenceError>)
        requires
            self.wf(),
            is_addition(plus),
        ensures
            self.predicts(
                row_major@,
                n_features,
                n_trees,
                plus,
                old(out)@,
                final(out)@,
                r,
            ),
    {
        if n_features != self.n_features {
            return Err(
                InferenceError::InputFeatures { got: n_features, expected: self.n_features },
            );
        }
        let n_rows: usize = out.len();
        let len: usize = row_major.len();
        match n_rows.checked_mul(n_features) {
            None => {
                return Err(InferenceError::InputOverflow);
            },
            Some(expected) => {
                if len != expected {
                    return Err(
                        InferenceError::InputLength {
                            got: len,
                            rows: n_rows,
                            features: n_features,
                            expected,
                        },
                    );
                }
            },
        }
        let ghost nf = n_features as int;
        let upto: usize = min_usize(n_trees, self.trees.len());
        let mut i: usize = 0;
        while i < n_rows
            invariant
                i <= n_rows,
                out@.len() == n_rows,
                forall|k: int| 0 <= k < i ==> #[trigger] out@[k] == self.base_margin,
            decreases n_rows - i,
        {
            out.set(i, self.base_margin);
            i += 1;
        }
        let mut r0: usize = 0;
        while r0 < n_rows
            invariant
                self.wf(),
                is_addition(plus),
                nf == n_features,
                n_features == self.n_features,
                r0 <= n_rows,
                out@.len() == n_rows,
                len == row_major@.len(),
                is_table(row_major@, nf, n_rows as int),
                upto <= self.trees@.len(),
                forall|k: int|
                    0 <= k < r0 ==> #[trigger] out@[k] == margin_after(
                        self.trees@,
                        self.base_margin,
                        plus,
                        row_of(row_major@, nf, k),
                        upto as int,
                    ),
                forall|k: int| r0 <= k < n_rows ==> #[trigger] out@[k] == self.base_margin,
            decreases n_rows - r0,
        {
            let r1: usize = r0 + min_usize(CPU_PREDICTION_BLOCK_ROWS, n_rows - r0);
            proof {
                lemma_row_inside_block(nf, r0 as int, r1 - 1, r1 as int);
                lemma_row_inside_block(nf, r1 - 1, n_rows - 1, n_rows as int);
                assert(r1 * nf <= n_rows * nf) by (nonlinear_arith)
                    requires
                        r1 <= n_rows,
                        nf >= 0,
                ;
                assert(r0 * nf <= r1 * nf) by (nonlinear_arith)
                    requires
                        r0 <= r1,
                        nf >= 0,
                ;
                assert(r0 * nf >= 0) by (nonlinear_arith)
                    requires
                        nf >= 0,
                ;
            }
            let any_missing: bool = self.needs_missing_check && has_missing(
                row_major,
                r0 * n_features,
                r1 * n_features,
            );
            let mut t: usize = 0;
            while t < upto
                invariant
                    self.wf(),
                    is_addition(plus),
                    nf == n_features,
                    n_features == self.n_features,
                    r0 < r1 <= n_rows,
                    t <= upto <= self.trees@.len(),
                    out@.len() == n_rows,
                    len == row_major@.len(),
                    is_table(row_major@, nf, n_rows as int),
                    any_missing || !self.needs_missing_check || none_missing(
                        row_major@,
                        nf,
                        r0 as int,
                        r1 as int,
                    ),
                    forall|k: int|
                        0 <= k < r0 ==> #[trigger] out@[k] == margin_after(
                            self.trees@,
                            self.base_margin,
                            plus,
                            row_of(row_major@, nf, k),
                            upto as int,
                        ),
                    forall|k: int|
                        r0 <= k < r1 ==> #[trigger] out@[k] == margin_after(
                            self.trees@,
                            self.base_margin,
                            plus,
                            row_of(row_major@, nf, k),
                            t as int,
                        ),
                    forall|k: int| r1 <= k < n_rows ==> #[trigger] out@[k] == self.base_margin,
                decreases upto - t,
            {
                assert(self.trees@[t as int].wf(nf));
                self.trees[t].add_block(
                    row_major,
                    n_features,
                    r0,
                    r1,
                    any_missing,
                    out,
                    &plus,
                );
                t += 1;
            }
            r0 = r1;
        }
        Ok(())
    }
}

/// Is any of the values `a .. b` missing?
fn has_missing(values: &[F32], a: usize, b: usize) -> (r: bool)
    requires
        a <= b <= values@.len(),
    ensures
        r == exists|i: int| a <= i < b && (#[trigger] values@[i]).nan(),
{
    let mut i: usize = a;
    while i < b
        invariant
            a <= i <= b <= values@.len(),
            forall|k: int| a <= k < i ==> !(#[trigger] values@[k]).nan(),
        decreases b - i,
    {
        if values[i].is_nan() {
            assert(values@[i as int].nan());
            return true;
        }
        i += 1;
    }
    false
}

/// Does any split send missing values left?
fn has_default_left(nodes: &Vec<Node>) -> (r: bool)
    ensures
        r == !no_default_left(nodes@),
{
    let mut i: usize = 0;
    while i < nodes.len()
        invariant
            i <= nodes@.len(),
            forall|k: int|
                0 <= k < i && !(#[trigger] nodes@[k]).is_leaf ==> !nodes@[k].default_left,
        decreases nodes.len() - i,
    {
        let node: Node = nodes[i];
        if !node.is_leaf && node.default_left {
            assert(!nodes@[i as int].is_leaf);
            return true;
        }
        i += 1;
    }
    false
}

/// Blocked traversal gives every row the margin that one walk per tree gives it, bit for bit,
/// whatever the arithmetic of the sums.
pub proof fn law_blocked_prediction_matches_row_wise_traversal<F: Fn(F32, F32) -> F32>(
    m: CpuInferenceModel,
    trees: Seq<Tree>,
    plus: F,
    row: Seq<F32>,
    k: int,
)
    requires
        m.represents(trees),
        0 <= k <= trees.len(),
    ensures
        margin_after(m.trees@, m.base_margin, plus, row, k) == row_margin(
            trees,
            m.base_margin,
            plus,
            row,
            k,
        ),
    decreases k,
{
    if k > 0 {
        law_blocked_prediction_matches_row_wise_traversal(m, trees, plus, row, k - 1);
        assert(m.trees@[k - 1].represents(trees[k - 1].nodes@));
        assert(m.trees@[k - 1].spec_leaf(row) == leaf_value_of(trees[k - 1].nodes@, row));
    }
}

/// Prediction with the layout of a model: a table of the model's width with a row for each margin
/// is always taken, and each margin is the one that walking the row down tree after tree gives it,
/// bit for bit, whatever stood there before. Any other table is refused and nothing is written.
pub proof fn law_prediction_is_row_wise<F: Fn(F32, F32) -> F32>(
    m: CpuInferenceModel,
    model: Model,
    row_major: Seq<F32>,
    n_features: usize,
    n_trees: usize,
    plus: F,
    before: Seq<F32>,
    after: Seq<F32>,
    r: Result<(), InferenceError>,
)
    requires
        m.represents(model.trees@),
        m.n_features == model.n_features,
        row_major.len() <= usize::MAX,
        m.predicts(row_major, n_features, n_trees, plus, before, after, r),
    ensures
        r is Ok <==> n_features == model.n_features && row_major.len() == before.len() * n_features,
        after.len() == before.len(),
        r is Ok ==> forall|i: int|
            0 <= i < before.len() ==> #[trigger] after[i] == row_margin(
                model.trees@,
                m.base_margin,
                plus,
                row_of(row_major, n_features as int, i),
                imin(n_trees as int, model.trees@.len() as int),
            ),
        r is Err ==> after == before,
{
    if r is Ok {
        let k = imin(n_trees as int, model.trees@.len() as int);
        assert forall|i: int| 0 <= i < before.len() implies #[trigger] after[i] == row_margin(
            model.trees@,
            m.base_margin,
            plus,
            row_of(row_major, n_features as int, i),
            k,
        ) by {
            law_blocked_prediction_matches_row_wise_traversal(
                m,
                model.trees@,
                plus,
                row_of(row_major, n_features as int, i),
                k,
            );
        }
    }
}

/// Some split of the trees uses feature `f`.
pub open spec fn uses_feature(trees: Seq<Tree>, f: int) -> bool {
    exists|t: int, i: int|
        #![trigger trees[t].nodes@[i]]
        0 <= t < trees.len() && 0 <= i < trees[t].nodes@.len() && !trees[t].nodes@[i].is_leaf
            && trees[t].nodes@[i].feat == f
}

/// Strictly increasing numbers.
pub open spec fn increasing(s: Seq<usize>) -> bool {
    forall|i: int, j: int| 0 <= i < j < s.len() ==> s[i] < s[j]
}

/// The features that a compact model reads: those that some split uses, in order; the first
/// one where none is used.
pub open spec fn is_used_list(features: Seq<usize>, trees: Seq<Tree>) -> bool {
    &&& increasing(features)
    &&& if exists|f: int| uses_feature(trees, f) {
        forall|f: usize| #[trigger] features.contains(f) <==> uses_feature(trees, f as int)
    } else {
        features == seq![0usize]
    }
}

/// A node that was renumbered to a compact feature.
pub open spec fn is_renumbered(node: Node, compact: Node, features: Seq<usize>) -> bool {
    if node.is_leaf {
        compact == node
    } else {
        &&& compact.feat < features.len()
        &&& features[compact.feat as int] == node.feat
        &&& compact == Node { feat: compact.feat, ..node }
    }
}

/// Nodes that were renumbered one by one.
pub open spec fn are_renumbered(
    nodes: Seq<Node>,
    compact: Seq<Node>,
    features: Seq<usize>,
) -> bool {
    &&& compact.len() == nodes.len()
    &&& forall|i: int|
        0 <= i < nodes.len() ==> is_renumbered(#[trigger] nodes[i], compact[i], features)
}

/// The names of the listed features, as far as there are names.
pub open spec fn names_of(names: Seq<String>, features: Seq<usize>, k: int) -> Seq<Seq<char>>
    decreases k,
{
    if k <= 0 {
        seq![]
    } else if features[k - 1] < names.len() {
        names_of(names, features, k - 1).push(names[features[k - 1] as int]@)
    } else {
        names_of(names, features, k - 1)
    }
}

/// The values that a compact model reads of a row.
pub open spec fn projected(row: Seq<F32>, features: Seq<usize>) -> Seq<F32> {
    Seq::new(features.len(), |j: int| row[features[j] as int])
}

/// A model that reads only the features that it uses.
pub struct CompactInferenceModel {
    pub model: Model,
    pub canonical_features: Vec<usize>,
}

/// Marks the features that splits use; reports the smallest that does not exist.
fn mark_used(trees: &Vec<Tree>, n_features: usize) -> (r: Result<Vec<bool>, u32>)
    ensures
        match r {
            Ok(marks) => {
                &&& marks@.len() == n_features
                &&& forall|f: int|
                    0 <= f < n_features ==> (#[trigger] marks@[f] <==> uses_feature(trees@, f))
                &&& forall|f: int| f >= n_features ==> !#[trigger] uses_feature(trees@, f)
            },
            Err(g) => {
                &&& g >= n_features
                &&& uses_feature(trees@, g as int)
                &&& forall|f: int| n_features <= f < g ==> !#[trigger] uses_feature(trees@, f)
            },
        },
{
    let mut marks: Vec<bool> = Vec::new();
    let mut f: usize = 0;
    while f < n_features
        invariant
            f <= n_features,
            marks@.len() == f,
            forall|g: int| 0 <= g < f ==> !#[trigger] marks@[g],
        decreases n_features - f,
    {
        marks.push(false);
        f += 1;
    }
    let mut worst: Option<u32> = None;
    let mut t: usize = 0;
    while t < trees.len()
        invariant
            t <= trees@.len(),
            marks@.len() == n_features,
            forall|g: int|
                0 <= g < n_features ==> (#[trigger] marks@[g] <==> uses_before(
                    trees@,
                    g,
                    t as int,
                    0,
                )),
            worst_so_far(trees@, n_features as int, worst, t as int, 0),
        decreases trees.len() - t,
    {
        let nodes: &Vec<Node> = &trees[t].nodes;
        let mut i: usize = 0;
        while i < nodes.len()
            invariant
                t < trees@.len(),
                nodes@ == trees@[t as int].nodes@,
                i <= nodes@.len(),
                marks@.len() == n_features,
                forall|g: int|
                    0 <= g < n_features ==> (#[trigger] marks@[g] <==> uses_before(
                        trees@,
                        g,
                        t as int,
                        i as int,
                    )),
                worst_so_far(trees@, n_features as int, worst, t as int, i as int),
            decreases nodes.len() - i,
        {
            let node: Node = nodes[i];
            proof {
                assert forall|g: int| #[trigger] uses_before(trees@, g, t as int, i + 1) <==> (uses_before(
                    trees@,
                    g,
                    t as int,
                    i as int,
                ) || (!node.is_leaf && node.feat == g)) by {
                    lemma_uses_step(trees@, g, t as int, i as int);
                }
            }
            if !node.is_leaf {
                let feat: usize = node.feat as usize;
                if feat < n_features {
                    marks.set(feat, true);
                } else {
                    worst = match worst {
                        None => Some(node.feat),
                        Some(w) => if node.feat < w {
                            Some(node.feat)
                        } else {
                            Some(w)
                        },
                    };
                }
            }
            i += 1;
        }
        proof {
            assert forall|g: int| #[trigger] uses_before(trees@, g, t + 1, 0) <==> uses_before(
                trees@,
                g,
                t as int,
                nodes@.len() as int,
            ) by {
                lemma_uses_next_tree(trees@, g, t as int);
            }
        }
        t += 1;
    }
    proof {
        assert forall|g: int|
            #![trigger uses_before(trees@, g, t as int, 0)]
            #![trigger uses_feature(trees@, g)]
            uses_before(trees@, g, t as int, 0) <==> uses_feature(trees@, g) by {
            lemma_uses_all(trees@, g);
        }
    }
    match worst {
        Some(w) => Err(w),
        None => Ok(marks),
    }
}

/// A split before node `i` of tree `t` uses feature `f`.
spec fn uses_before(trees: Seq<Tree>, f: int, t: int, i: int) -> bool {
    exists|u: int, k: int|
        #![trigger trees[u].nodes@[k]]
        0 <= u < trees.len() && 0 <= k < trees[u].nodes@.len() && (u < t || (u == t && k < i))
            && !trees[u].nodes@[k].is_leaf && trees[u].nodes@[k].feat == f
}

/// The smallest feature at or beyond `n` that a split before node `i` of tree `t` uses.
spec fn worst_so_far(trees: Seq<Tree>, n: int, worst: Option<u32>, t: int, i: int) -> bool {
    match worst {
        None => forall|f: int| f >= n ==> !#[trigger] uses_before(trees, f, t, i),
        Some(w) => w >= n && uses_before(trees, w as int, t, i) && forall|f: int|
            n <= f < w ==> !#[trigger] uses_before(trees, f, t, i),
    }
}

proof fn lemma_uses_step(trees: Seq<Tree>, f: int, t: int, i: int)
    requires
        0 <= t < trees.len(),
        0 <= i < trees[t].nodes@.len(),
    ensures
        uses_before(trees, f, t, i + 1) <==> (uses_before(trees, f, t, i) || (
        !trees[t].nodes@[i].is_leaf && trees[t].nodes@[i].feat == f)),
{
    let node = trees[t].nodes@[i];
    if uses_before(trees, f, t, i) {
        let (u, k) = choose|u: int, k: int|
            #![trigger trees[u].nodes@[k]]
            0 <= u < trees.len() && 0 <= k < trees[u].nodes@.len() && (u < t || (u == t && k < i))
                && !trees[u].nodes@[k].is_leaf && trees[u].nodes@[k].feat == f;
        assert(!trees[u].nodes@[k].is_leaf);
    }
}

proof fn lemma_uses_next_tree(trees: Seq<Tree>, f: int, t: int)
    requires
        0 <= t < trees.len(),
    ensures
        uses_before(trees, f, t + 1, 0) <==> uses_before(
            trees,
            f,
            t,
            trees[t].nodes@.len() as int,
        ),
{
}

proof fn lemma_uses_all(trees: Seq<Tree>, f: int)
    ensures
        uses_before(trees, f, trees.len() as int, 0) <==> uses_feature(trees, f),
{
}

/// A copy of the nodes with renumbered features.
fn renumber(nodes: &Vec<Node>, to_compact: &Vec<usize>, Ghost(features): Ghost<Seq<usize>>) -> (r:
    Vec<Node>)
    requires
        forall|i: int|
            0 <= i < nodes@.len() && !(#[trigger] nodes@[i]).is_leaf ==> {
                &&& nodes@[i].feat < to_compact@.len()
                &&& to_compact@[nodes@[i].feat as int] < features.len()
                &&& to_compact@[nodes@[i].feat as int] <= u32::MAX
                &&& features[to_compact@[nodes@[i].feat as int] as int] == nodes@[i].feat
            },
    ensures
        are_renumbered(nodes@, r@, features),
{
    let mut r: Vec<Node> = Vec::new();
    let mut i: usize = 0;
    while i < nodes.len()
        invariant
            i <= nodes@.len(),
            r@.len() == i,
            forall|k: int|
                0 <= k < nodes@.len() && !(#[trigger] nodes@[k]).is_leaf ==> {
                    &&& nodes@[k].feat < to_compact@.len()
                    &&& to_compact@[nodes@[k].feat as int] < features.len()
                    &&& to_compact@[nodes@[k].feat as int] <= u32::MAX
                    &&& features[to_compact@[nodes@[k].feat as int] as int] == nodes@[k].feat
                },
            forall|k: int| 0 <= k < i ==> is_renumbered(#[trigger] nodes@[k], r@[k], features),
        decreases nodes.len() - i,
    {
        let mut node: Node = nodes[i];
        if !node.is_leaf {
            assert(!nodes@[i as int].is_leaf);
            node.feat = to_compact[node.feat as usize] as u32;
        }
        r.push(node);
        i += 1;
    }
    r
}

proof fn lemma_increasing_at_least_index(s: Seq<usize>, i: int)
    requires
        increasing(s),
        0 <= i < s.len(),
    ensures
        s[i] >= i,
    decreases i,
{
    if i > 0 {
        lemma_increasing_at_least_index(s, i - 1);
    }
}

/// The compact form of a model, or why it has none.
pub open spec fn is_compaction(
    canonical: Model,
    r: Result<CompactInferenceModel, InferenceError>,
) -> bool {
    match r {
        Ok(c) => {
            &&& canonical.n_features > 0
            &&& forall|f: int|
                f >= canonical.n_features ==> !#[trigger] uses_feature(canonical.trees@, f)
            &&& c.compacts(canonical)
        },
        Err(e) => if canonical.n_features == 0 {
            e == InferenceError::NoFeatures
        } else {
            e matches InferenceError::FeatureOutOfRange { feat } && feat >= canonical.n_features
                && uses_feature(canonical.trees@, feat as int) && forall|f: int|
                canonical.n_features <= f < feat ==> !#[trigger] uses_feature(canonical.trees@, f)
        },
    }
}

impl CompactInferenceModel {
    /// The compact model is the canonical one, reading only the features that it uses.
    pub open spec fn compacts(&self, canonical: Model) -> bool {
        let features = self.canonical_features@;
        &&& is_used_list(features, canonical.trees@)
        &&& forall|j: int| 0 <= j < features.len() ==> #[trigger] features[j] < canonical.n_features
        &&& self.model.trees@.len() == canonical.trees@.len()
        &&& forall|t: int|
            0 <= t < canonical.trees@.len() ==> are_renumbered(
                (#[trigger] canonical.trees@[t]).nodes@,
                self.model.trees@[t].nodes@,
                features,
            )
        &&& self.model.n_features == features.len()
        &&& self.model.base_score == canonical.base_score
        &&& self.model.objective == canonical.objective
        &&& self.model.best_iteration == canonical.best_iteration
        &&& self.model.best_score == canonical.best_score
        &&& self.model.schema_mode == canonical.schema_mode
        &&& self.model.feature_names@.map_values(|s: String| s@) == names_of(
            canonical.feature_names@,
            features,
            features.len() as int,
        )
    }

    /// Makes the compact copy of a model. The model itself is only read.
    pub fn new(canonical: &Model) -> (r: Result<CompactInferenceModel, InferenceError>)
        ensures
            is_compaction(*canonical, r),
    {
        let nf: usize = canonical.n_features;
        if nf == 0 {
            return Err(InferenceError::NoFeatures);
        }
        let marks: Vec<bool> = match mark_used(&canonical.trees, nf) {
            Ok(m) => m,
            Err(feat) => {
                return Err(InferenceError::FeatureOutOfRange { feat });
            },
        };
        let ghost trees = canonical.trees@;
        let mut features: Vec<usize> = Vec::new();
        let mut to_compact: Vec<usize> = Vec::new();
        let mut f: usize = 0;
        while f < nf
            invariant
                f <= nf,
                marks@.len() == nf,
                forall|g: int|
                    0 <= g < nf ==> (#[trigger] marks@[g] <==> uses_feature(trees, g)),
                increasing(features@),
                forall|j: int| 0 <= j < features@.len() ==> #[trigger] features@[j] < f,
                forall|g: usize|
                    #[trigger] features@.contains(g) <==> g < f && uses_feature(trees, g as int),
                to_compact@.len() == f,
                forall|g: int|
                    0 <= g < f && uses_feature(trees, g) ==> #[trigger] to_compact@[g]
                        < features@.len() && features@[to_compact@[g] as int] == g,
            decreases nf - f,
        {
            let ghost before = features@;
            let ghost map_before = to_compact@;
            to_compact.push(features.len());
            if marks[f] {
                features.push(f);
            }
            proof {
                assert forall|g: usize| #[trigger] features@.contains(g) <==> g < f + 1
                    && uses_feature(trees, g as int) by {
                    if before.contains(g) {
                        let w = choose|w: int| 0 <= w < before.len() && before[w] == g;
                        assert(features@[w] == g);
                    }
                    if features@.contains(g) {
                        let w = choose|w: int| 0 <= w < features@.len() && features@[w] == g;
                        if w < before.len() {
                            assert(before[w] == g);
                        }
                    }
                    if g == f && marks@[f as int] {
                        assert(features@[before.len() as int] == g);
                    }
                    assert(marks@[f as int] <==> uses_feature(trees, f as int));
                }
                assert forall|g: int| 0 <= g < f + 1 && uses_feature(trees, g) implies
                    #[trigger] to_compact@[g] < features@.len() && features@[to_compact@[g] as int]
                    == g by {
                    if g < f {
                        assert(map_before[g] < before.len() && before[map_before[g] as int] == g);
                        assert(to_compact@[g] == map_before[g]);
                    } else {
                        assert(marks@[f as int]);
                    }
                }
            }
            f += 1;
        }
        proof {
            if features@.len() == 0 {
                assert forall|g: int| !uses_feature(trees, g) by {
                    if uses_feature(trees, g) {
                        if 0 <= g < nf {
                            assert(features@.contains(g as usize));
                        }
                    }
                }
            } else {
                assert(features@.contains(features@[0]));
                assert(uses_feature(trees, features@[0] as int));
            }
        }
        if features.len() == 0 {
            features.push(0);
        }
        let ghost list = features@;
        proof {
            assert(list =~= seq![0usize] || exists|g: int| uses_feature(trees, g));
            assert(is_used_list(list, trees));
        }
        let mut new_trees: Vec<Tree> = Vec::new();
        let mut t: usize = 0;
        while t < canonical.trees.len()
            invariant
                t <= canonical.trees@.len(),
                trees == canonical.trees@,
                list == features@,
                nf == canonical.n_features,
                increasing(list),
                to_compact@.len() == nf,
                forall|g: int| g >= nf ==> !#[trigger] uses_feature(trees, g),
                forall|g: int|
                    0 <= g < nf && uses_feature(trees, g) ==> #[trigger] to_compact@[g]
                        < list.len() && list[to_compact@[g] as int] == g,
                new_trees@.len() == t,
                forall|u: int|
                    0 <= u < t ==> are_renumbered(
                        (#[trigger] canonical.trees@[u]).nodes@,
                        new_trees@[u].nodes@,
                        list,
                    ),
            decreases canonical.trees.len() - t,
        {
            let nodes: &Vec<Node> = &canonical.trees[t].nodes;
            proof {
                assert forall|i: int| 0 <= i < nodes@.len() && !(#[trigger] nodes@[i]).is_leaf implies {
                    &&& nodes@[i].feat < to_compact@.len()
                    &&& to_compact@[nodes@[i].feat as int] < list.len()
                    &&& to_compact@[nodes@[i].feat as int] <= u32::MAX
                    &&& list[to_compact@[nodes@[i].feat as int] as int] == nodes@[i].feat
                } by {
                    let g = nodes@[i].feat as int;
                    assert(!trees[t as int].nodes@[i].is_leaf);
                    assert(uses_feature(trees, g));
                    lemma_increasing_at_least_index(list, to_compact@[g] as int);
                }
            }
            let new_nodes: Vec<Node> = renumber(nodes, &to_compact, Ghost(list));
            new_trees.push(Tree { nodes: new_nodes });
            t += 1;
        }
        let mut names: Vec<String> = Vec::new();
        let mut j: usize = 0;
        while j < features.len()
            invariant
                j <= features@.len(),
                list == features@,
                names@.map_values(|s: String| s@) == names_of(
                    canonical.feature_names@,
                    list,
                    j as int,
                ),
            decreases features.len() - j,
        {
            let feat: usize = features[j];
            let ghost before = names@;
            if feat < canonical.feature_names.len() {
                names.push(canonical.feature_names[feat].clone());
                assert(names@.map_values(|s: String| s@) =~= before.map_values(
                    |s: String| s@,
                ).push(canonical.feature_names@[feat as int]@));
            }
            j += 1;
        }
        let n_features: usize = features.len();
        Ok(
            CompactInferenceModel {
                model: Model {
                    trees: new_trees,
                    base_score: canonical.base_score,
                    objective: canonical.objective,
                    n_features,
                    best_iteration: canonical.best_iteration,
                    best_score: canonical.best_score,
                    feature_names: names,
                    schema_mode: canonical.schema_mode,
                },
                canonical_features: features,
            },
        )
    }

    /// The compact model.
    pub fn model(&self) -> (m: &Model)
        ensures
            *m == self.model,
    {
        &self.model
    }

    /// The canonical numbers of the compact features.
    pub fn canonical_features(&self) -> (f: &[usize])
        ensures
            f@ == self.canonical_features@,
    {
        self.canonical_features.as_slice()
    }

    /// How many features the compact model reads.
    pub fn n_features(&self) -> (n: usize)
        ensures
            n == self.canonical_features@.len(),
    {
        self.canonical_features.len()
    }

    /// Does the compact model read a row of this width unchanged?
    pub fn is_identity(&self, canonical_width: usize) -> (r: bool)
        ensures
            r == (self.canonical_features@ == Seq::new(
                canonical_width as nat,
                |i: int| i as usize,
            )),
    {
        let n: usize = self.canonical_features.len();
        if n != canonical_width {
            return false;
        }
        let ghost want = Seq::new(canonical_width as nat, |i: int| i as usize);
        let mut i: usize = 0;
        while i < n
            invariant
                n == self.canonical_features@.len(),
                n == canonical_width,
                want == Seq::new(canonical_width as nat, |i: int| i as usize),
                i <= n,
                forall|k: int| 0 <= k < i ==> #[trigger] self.canonical_features@[k] == k,
            decreases n - i,
        {
            if self.canonical_features[i] != i {
                assert(want[i as int] != self.canonical_features@[i as int]);
                return false;
            }
            i += 1;
        }
        assert(self.canonical_features@ =~= want);
        true
    }
}

/// A row that is projected to the used features takes the same way down a renumbered tree.
pub proof fn law_projected_row_takes_the_same_way(
    nodes: Seq<Node>,
    compact: Seq<Node>,
    features: Seq<usize>,
    row: Seq<F32>,
    id: int,
    k: int,
    n_features: int,
)
    requires
        nodes_ok(nodes, n_features),
        are_renumbered(nodes, compact, features),
        0 <= id < nodes.len(),
    ensures
        walk(compact, projected(row, features), id, k) == walk(nodes, row, id, k),
    decreases k,
{
    if k > 0 {
        law_projected_row_takes_the_same_way(nodes, compact, features, row, id, k - 1, n_features);
        lemma_walk_in_range(nodes, row, id, k - 1, n_features);
        let p = walk(nodes, row, id, k - 1);
        assert(is_renumbered(nodes[p], compact[p], features));
    }
}

/// The compact model gives the projected row the leaf values that the model gives the row.
pub proof fn law_compact_prediction_is_bit_exact<F: Fn(F32, F32) -> F32>(
    canonical: Model,
    compact: CompactInferenceModel,
    base: F32,
    plus: F,
    row: Seq<F32>,
    k: int,
)
    requires
        compact.compacts(canonical),
        0 <= k <= canonical.trees@.len(),
        forall|t: int|
            0 <= t < k ==> can_walk(
                (#[trigger] canonical.trees@[t]).nodes@,
                canonical.n_features as int,
            ),
    ensures
        row_margin(
            compact.model.trees@,
            base,
            plus,
            projected(row, compact.canonical_features@),
            k,
        ) == row_margin(canonical.trees@, base, plus, row, k),
    decreases k,
{
    if k > 0 {
        law_compact_prediction_is_bit_exact(canonical, compact, base, plus, row, k - 1);
        let nodes = canonical.trees@[k - 1].nodes@;
        let small = compact.model.trees@[k - 1].nodes@;
        let features = compact.canonical_features@;
        let nf = canonical.n_features as int;
        assert(can_walk(nodes, nf));
        assert(are_renumbered(nodes, small, features));
        law_projected_row_takes_the_same_way(
            nodes,
            small,
            features,
            row,
            0,
            nodes.len() as int,
            nf,
        );
        lemma_walk_in_range(nodes, row, 0, nodes.len() as int, nf);
        let p = walk(nodes, row, 0, nodes.len() as int);
        assert(is_renumbered(nodes[p], small[p], features));
    }
}

/// The features that the trees use.
pub open spec fn used_features(trees: Seq<Tree>) -> Set<usize> {
    Set::new(|f: usize| uses_feature(trees, f as int))
}

/// A model can be made compact exactly where it has features and uses no other. The compact model
/// reads the used features in ascending order, each once, or the first one where none is used.
/// But for the number of features, their names and their numbers in splits it is the model.
pub proof fn law_compact_model_reads_the_used_features(
    canonical: Model,
    r: Result<CompactInferenceModel, InferenceError>,
)
    requires
        is_compaction(canonical, r),
    ensures
        r is Err <==> canonical.n_features == 0 || exists|f: int|
            f >= canonical.n_features && #[trigger] uses_feature(canonical.trees@, f),
        r matches Ok(c) ==> {
            let features = c.canonical_features@;
            let used = used_features(canonical.trees@);
            &&& increasing(features)
            &&& used != Set::<usize>::empty() ==> features.to_set() == used
            &&& used == Set::<usize>::empty() ==> features == seq![0usize]
            &&& c.model.n_features == features.len()
            &&& c.model.trees@.len() == canonical.trees@.len()
            &&& forall|t: int|
                0 <= t < canonical.trees@.len() ==> are_renumbered(
                    (#[trigger] canonical.trees@[t]).nodes@,
                    c.model.trees@[t].nodes@,
                    features,
                )
        },
{
    if let Ok(c) = r {
        let features = c.canonical_features@;
        let trees = canonical.trees@;
        let used = used_features(trees);
        if exists|f: int| uses_feature(trees, f) {
            let f = choose|f: int| uses_feature(trees, f);
            let (t, i) = choose|t: int, i: int|
                #![trigger trees[t].nodes@[i]]
                0 <= t < trees.len() && 0 <= i < trees[t].nodes@.len()
                    && !trees[t].nodes@[i].is_leaf && trees[t].nodes@[i].feat == f;
            assert(uses_feature(trees, trees[t].nodes@[i].feat as int));
            assert(f < canonical.n_features);
            assert(used.contains(f as usize));
            assert(features.to_set() =~= used);
        } else {
            assert(used =~= Set::<usize>::empty());
        }
    }
}

proof fn lemma_renumbered_unfolds(
    nodes: Seq<Node>,
    compact: Seq<Node>,
    features: Seq<usize>,
    n_features: int,
    id: int,
    d: int,
)
    requires
        nodes_ok(nodes, n_features),
        are_renumbered(nodes, compact, features),
        0 <= id < nodes.len(),
    ensures
        unfolded(compact, id, d) == unfolded(nodes, id, d),
    decreases d,
{
    assert(is_renumbered(nodes[id], compact[id], features));
    if d > 0 && !nodes[id].is_leaf {
        assert(node_ok(nodes[id], nodes.len() as int, n_features));
        lemma_renumbered_unfolds(
            nodes,
            compact,
            features,
            n_features,
            nodes[id].left as int,
            d - 1,
        );
        lemma_renumbered_unfolds(
            nodes,
            compact,
            features,
            n_features,
            nodes[id].right as int,
            d - 1,
        );
    }
}

/// What can be laid out for prediction can be laid out in its compact form too, and the compact
/// layout gives the projected row the margin that the full layout gives the row, bit for bit.
pub proof fn law_compact_layout_predicts_the_same<F: Fn(F32, F32) -> F32>(
    canonical: Model,
    compact: CompactInferenceModel,
    full: CpuInferenceModel,
    small: CpuInferenceModel,
    plus: F,
    row: Seq<F32>,
    k: int,
)
    requires
        compact.compacts(canonical),
        forall|t: int|
            0 <= t < canonical.trees@.len() ==> tree_ok(
                (#[trigger] canonical.trees@[t]).nodes@,
                canonical.n_features as int,
            ),
        full.represents(canonical.trees@),
        small.represents(compact.model.trees@),
        small.base_margin == full.base_margin,
        0 <= k <= canonical.trees@.len(),
    ensures
        compact.model.n_features > 0,
        forall|t: int|
            0 <= t < compact.model.trees@.len() ==> tree_ok(
                (#[trigger] compact.model.trees@[t]).nodes@,
                compact.model.n_features as int,
            ),
        margin_after(
            small.trees@,
            small.base_margin,
            plus,
            projected(row, compact.canonical_features@),
            k,
        ) == margin_after(full.trees@, full.base_margin, plus, row, k),
{
    let features = compact.canonical_features@;
    let nf = canonical.n_features as int;
    assert(features.len() > 0) by {
        if exists|f: int| uses_feature(canonical.trees@, f) {
            let trees = canonical.trees@;
            let f = choose|f: int| uses_feature(trees, f);
            let (t, i) = choose|t: int, i: int|
                #![trigger trees[t].nodes@[i]]
                0 <= t < trees.len() && 0 <= i < trees[t].nodes@.len()
                    && !trees[t].nodes@[i].is_leaf && trees[t].nodes@[i].feat == f;
            assert(tree_ok(trees[t].nodes@, nf));
            assert(node_ok(trees[t].nodes@[i], trees[t].nodes@.len() as int, nf));
            assert(features.contains(f as usize));
        }
    }
    assert forall|t: int| 0 <= t < compact.model.trees@.len() implies tree_ok(
        (#[trigger] compact.model.trees@[t]).nodes@,
        compact.model.n_features as int,
    ) by {
        let nodes = canonical.trees@[t].nodes@;
        let renumbered = compact.model.trees@[t].nodes@;
        assert(tree_ok(nodes, nf));
        assert(are_renumbered(nodes, renumbered, features));
        lemma_renumbered_unfolds(nodes, renumbered, features, nf, 0, nodes.len() as int);
        assert forall|i: int| 0 <= i < renumbered.len() implies node_ok(
            #[trigger] renumbered[i],
            renumbered.len() as int,
            compact.model.n_features as int,
        ) by {
            assert(is_renumbered(nodes[i], renumbered[i], features));
            assert(node_ok(nodes[i], nodes.len() as int, nf));
        }
    }
    let short = projected(row, features);
    assert forall|t: int| 0 <= t < canonical.trees@.len() implies can_walk(
        (#[trigger] canonical.trees@[t]).nodes@,
        nf,
    ) by {
        assert(tree_ok(canonical.trees@[t].nodes@, nf));
        lemma_acyclic_walks_end(canonical.trees@[t].nodes@);
    }
    law_compact_prediction_is_bit_exact(canonical, compact, full.base_margin, plus, row, k);
    law_blocked_prediction_matches_row_wise_traversal(full, canonical.trees@, plus, row, k);
    law_blocked_prediction_matches_row_wise_traversal(
        small,
        compact.model.trees@,
        plus,
        short,
        k,
    );
}

} // verus!
