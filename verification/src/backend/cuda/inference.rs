//! Device prediction: a model flattened into arrays, and rows cut into bounded batches.
use vstd::prelude::*;

use crate::float32::F32;
use crate::inference::CompactInferenceModel;
use crate::math::{ceil_div, div_ceil_usize, imax, imin, lemma_ceil_div, max_usize, min_usize};
use crate::tree::{nodes_ok, node_ok, walk, Node, Tree};

verus! {

/// Threads per block of the prediction kernel.
pub const PREDICT_THREADS: usize = 256;

/// The most staging memory of one batch.
pub const MAX_STAGING_BYTES: usize = 536_870_912;

/// Device memory that prediction leaves alone.
pub const DEVICE_HEADROOM_BYTES: usize = 268_435_456;

/// Why a model cannot be flattened.
#[derive(Clone, Copy, Debug, PartialEq, Eq, Structural)]
pub enum FlattenError {
    /// More nodes than a 32-bit number counts.
    TooManyNodes,
    /// A split uses a feature that does not exist.
    FeatureOutOfRange { feat: u32 },
    /// A split has a child that does not exist.
    ChildOutOfRange,
    /// A child's number does not fit 32 bits.
    ChildOverflow,
}

/// A model as flat arrays. Child numbers count over all trees.
pub struct GpuInferenceModel {
    /// Where each tree starts, with the number of nodes last.
    pub tree_offsets: Vec<u32>,
    pub features: Vec<u32>,
    pub split_conditions: Vec<F32>,
    pub left_children: Vec<u32>,
    pub right_children: Vec<u32>,
    /// Flags for "leaf" (1) and "missing goes left" (2).
    pub flags: Vec<u8>,
    pub leaf_values: Vec<F32>,
    pub input_features: Vec<usize>,
    pub n_features: usize,
    pub n_trees: usize,
    pub base_margin: F32,
}

/// The nodes of the trees before `t`.
pub open spec fn base_of(trees: Seq<Tree>, t: int) -> int
    decreases t,
{
    if t <= 0 {
        0
    } else {
        base_of(trees, t - 1) + trees[t - 1].nodes@.len()
    }
}

/// What is wrong with a node, if anything.
pub open spec fn node_error(node: Node, n_nodes: int, n_features: int, base: int) -> Option<
    FlattenError,
> {
    if node.is_leaf {
        None
    } else if node.feat >= n_features {
        Some(FlattenError::FeatureOutOfRange { feat: node.feat })
    } else if node.left < 0 || node.right < 0 || node.left >= n_nodes || node.right >= n_nodes {
        Some(FlattenError::ChildOutOfRange)
    } else if base + node.left > u32::MAX || base + node.right > u32::MAX {
        Some(FlattenError::ChildOverflow)
    } else {
        None
    }
}

/// The first `i` nodes of tree `t` are in order.
pub open spec fn nodes_clean(trees: Seq<Tree>, n_features: int, t: int, i: int) -> bool {
    forall|k: int|
        0 <= k < i ==> node_error(
            #[trigger] trees[t].nodes@[k],
            trees[t].nodes@.len() as int,
            n_features,
            base_of(trees, t),
        ) is None
}

/// A tree that can be flattened.
pub open spec fn tree_clean(trees: Seq<Tree>, n_features: int, t: int) -> bool {
    base_of(trees, t) <= u32::MAX && nodes_clean(
        trees,
        n_features,
        t,
        trees[t].nodes@.len() as int,
    )
}

/// A model that can be flattened.
pub open spec fn flattens(trees: Seq<Tree>, n_features: int) -> bool {
    &&& forall|t: int| 0 <= t < trees.len() ==> #[trigger] tree_clean(trees, n_features, t)
    &&& base_of(trees, trees.len() as int) <= u32::MAX
}

/// The first thing that is wrong with a model.
pub open spec fn is_flatten_error(trees: Seq<Tree>, n_features: int, e: FlattenError) -> bool {
    exists|t: int|
        {
            &&& 0 <= t <= trees.len()
            &&& forall|u: int| 0 <= u < t ==> #[trigger] tree_clean(trees, n_features, u)
            &&& if #[trigger] base_of(trees, t) > u32::MAX {
                e == FlattenError::TooManyNodes
            } else {
                &&& t < trees.len()
                &&& exists|i: int|
                    {
                        &&& 0 <= i < trees[t].nodes@.len()
                        &&& #[trigger] nodes_clean(trees, n_features, t, i)
                        &&& node_error(
                            trees[t].nodes@[i],
                            trees[t].nodes@.len() as int,
                            n_features,
                            base_of(trees, t),
                        ) == Some(e)
                    }
            }
        }
}

/// The number that flags a node.
pub open spec fn flag_of(node: Node) -> int {
    (if node.is_leaf {
        1int
    } else {
        0
    }) + (if node.default_left {
        2int
    } else {
        0
    })
}

impl GpuInferenceModel {
    /// All arrays have `n` entries.
    pub open spec fn has_len(&self, n: int) -> bool {
        &&& self.features@.len() == n
        &&& self.split_conditions@.len() == n
        &&& self.left_children@.len() == n
        &&& self.right_children@.len() == n
        &&& self.flags@.len() == n
        &&& self.leaf_values@.len() == n
    }

    /// Entry `at` is this node of a tree that starts at `base`.
    pub open spec fn entry_is(&self, at: int, node: Node, base: int) -> bool {
        &&& self.features@[at] == node.feat
        &&& self.split_conditions@[at] == node.split_cond
        &&& self.left_children@[at] == if node.is_leaf {
            0
        } else {
            base + node.left
        }
        &&& self.right_children@[at] == if node.is_leaf {
            0
        } else {
            base + node.right
        }
        &&& self.flags@[at] == flag_of(node)
        &&& self.leaf_values@[at] == node.leaf_value
    }

    /// The arrays hold all nodes of the trees, one tree after the other.
    pub open spec fn holds(&self, trees: Seq<Tree>) -> bool {
        let total = base_of(trees, trees.len() as int);
        &&& self.n_trees == trees.len()
        &&& self.tree_offsets@.len() == trees.len() + 1
        &&& forall|t: int|
            0 <= t <= trees.len() ==> #[trigger] self.tree_offsets@[t] == base_of(trees, t)
        &&& self.has_len(imax(total, 1))
        &&& forall|t: int, i: int|
            #![trigger trees[t].nodes@[i]]
            0 <= t < trees.len() && 0 <= i < trees[t].nodes@.len() ==> self.entry_is(
                base_of(trees, t) + i,
                trees[t].nodes@[i],
                base_of(trees, t),
            )
        &&& total == 0 ==> self.flags@[0] == 1
    }

    /// Does a row go left at an entry?
    pub open spec fn entry_left(&self, at: int, row: Seq<F32>) -> bool {
        let v = row[self.features@[at] as int];
        if v.nan() {
            self.flags@[at] / 2 % 2 == 1
        } else {
            v.lt(self.split_conditions@[at])
        }
    }

    /// Where a row is after `k` steps from an entry.
    pub open spec fn flat_walk(&self, row: Seq<F32>, at: int, k: int) -> int
        decreases k,
    {
        if k <= 0 {
            at
        } else {
            let p = self.flat_walk(row, at, k - 1);
            if self.flags@[p] % 2 == 1 {
                p
            } else if self.entry_left(p, row) {
                self.left_children@[p] as int
            } else {
                self.right_children@[p] as int
            }
        }
    }

    fn push_node(&mut self, node: Node, base: u32)
        requires
            !node.is_leaf ==> 0 <= node.left && 0 <= node.right && base + node.left <= u32::MAX
                && base + node.right <= u32::MAX,
            old(self).has_len(old(self).features@.len() as int),
        ensures
            final(self).has_len((old(self).features@.len() + 1) as int),
            final(self).entry_is(old(self).features@.len() as int, node, base as int),
            forall|at: int, n: Node, b: int|
                0 <= at < old(self).features@.len() && #[trigger] old(self).entry_is(at, n, b)
                    ==> final(self).entry_is(at, n, b),
            final(self).tree_offsets == old(self).tree_offsets,
            final(self).input_features == old(self).input_features,
            final(self).n_features == old(self).n_features,
            final(self).n_trees == old(self).n_trees,
            final(self).base_margin == old(self).base_margin,
    {
        self.features.push(node.feat);
        self.split_conditions.push(node.split_cond);
        self.left_children.push(
            if node.is_leaf {
                0
            } else {
                base + node.left as u32
            },
        );
        self.right_children.push(
            if node.is_leaf {
                0
            } else {
                base + node.right as u32
            },
        );
        let leaf_flag: u8 = if node.is_leaf {
            1
        } else {
            0
        };
        let default_flag: u8 = if node.default_left {
            2
        } else {
            0
        };
        self.flags.push(leaf_flag + default_flag);
        self.leaf_values.push(node.leaf_value);
    }

    /// Flattens a compact model.
    pub fn from_compact(compact: &CompactInferenceModel, base_margin: F32) -> (r: Result<
        GpuInferenceModel,
        FlattenError,
    >)
        ensures
            r is Ok <==> flattens(compact.model.trees@, compact.model.n_features as int),
            r matches Ok(g) ==> {
                &&& g.holds(compact.model.trees@)
                &&& g.n_features == compact.model.n_features
                &&& g.input_features@ == compact.canonical_features@
                &&& g.base_margin == base_margin
            },
            r matches Err(e) ==> is_flatten_error(
                compact.model.trees@,
                compact.model.n_features as int,
                e,
            ),
    {
        let trees: &Vec<Tree> = &compact.model.trees;
        let nf: usize = compact.model.n_features;
        let mut g: GpuInferenceModel = GpuInferenceModel {
            tree_offsets: Vec::new(),
            features: Vec::new(),
            split_conditions: Vec::new(),
            left_children: Vec::new(),
            right_children: Vec::new(),
            flags: Vec::new(),
            leaf_values: Vec::new(),
            input_features: copy_usizes(compact.canonical_features.as_slice()),
            n_features: nf,
            n_trees: trees.len(),
            base_margin,
        };
        let mut t: usize = 0;
        while t < trees.len()
            invariant
                t <= trees@.len(),
                trees@ == compact.model.trees@,
                nf == compact.model.n_features,
                g.n_trees == trees@.len(),
                g.n_features == nf,
                g.base_margin == base_margin,
                g.input_features@ == compact.canonical_features@,
                g.tree_offsets@.len() == t,
                g.has_len(base_of(trees@, t as int)),
                forall|u: int|
                    0 <= u < t ==> #[trigger] g.tree_offsets@[u] == base_of(trees@, u),
                forall|u: int| 0 <= u < t ==> #[trigger] tree_clean(trees@, nf as int, u),
                forall|u: int, i: int|
                    #![trigger trees@[u].nodes@[i]]
                    0 <= u < t && 0 <= i < trees@[u].nodes@.len() ==> g.entry_is(
                        base_of(trees@, u) + i,
                        trees@[u].nodes@[i],
                        base_of(trees@, u),
                    ),
            decreases trees.len() - t,
        {
            let nodes: &Vec<Node> = &trees[t].nodes;
            let n: usize = nodes.len();
            let count: usize = g.features.len();
            if count > 0xffff_ffff {
                assert(base_of(trees@, t as int) > u32::MAX);
                assert(!tree_clean(trees@, nf as int, t as int));
                return Err(FlattenError::TooManyNodes);
            }
            let base: u32 = count as u32;
            g.tree_offsets.push(base);
            let mut i: usize = 0;
            while i < n
                invariant
                    t < trees@.len(),
                    trees@ == compact.model.trees@,
                    nf == compact.model.n_features,
                    nodes@ == trees@[t as int].nodes@,
                    n == nodes@.len(),
                    i <= n,
                    base == base_of(trees@, t as int),
                    g.n_trees == trees@.len(),
                    g.n_features == nf,
                    g.base_margin == base_margin,
                    g.input_features@ == compact.canonical_features@,
                    g.tree_offsets@.len() == t + 1,
                    g.has_len(base + i),
                    forall|u: int|
                        0 <= u < t + 1 ==> #[trigger] g.tree_offsets@[u] == base_of(trees@, u),
                    forall|u: int| 0 <= u < t ==> #[trigger] tree_clean(trees@, nf as int, u),
                    nodes_clean(trees@, nf as int, t as int, i as int),
                    forall|u: int, k: int|
                        #![trigger trees@[u].nodes@[k]]
                        0 <= u < t && 0 <= k < trees@[u].nodes@.len() ==> g.entry_is(
                            base_of(trees@, u) + k,
                            trees@[u].nodes@[k],
                            base_of(trees@, u),
                        ),
                    forall|k: int|
                        #![trigger trees@[t as int].nodes@[k]]
                        0 <= k < i ==> g.entry_is(
                            base + k,
                            trees@[t as int].nodes@[k],
                            base as int,
                        ),
                decreases n - i,
            {
                let node: Node = nodes[i];
                if !node.is_leaf {
                    if node.feat as usize >= nf {
                        proof {
                            lemma_bad_node(trees@, nf as int, t as int, i as int);
                        }
                        return Err(FlattenError::FeatureOutOfRange { feat: node.feat });
                    }
                    if node.left < 0 || node.right < 0 || node.left as usize >= n
                        || node.right as usize >= n {
                        proof {
                            lemma_bad_node(trees@, nf as int, t as int, i as int);
                        }
                        return Err(FlattenError::ChildOutOfRange);
                    }
                    if node.left as u32 > 0xffff_ffff - base || node.right as u32 > 0xffff_ffff
                        - base {
                        proof {
                            lemma_bad_node(trees@, nf as int, t as int, i as int);
                        }
                        return Err(FlattenError::ChildOverflow);
                    }
                }
                let ghost before = g;
                g.push_node(node, base);
                proof {
                    assert forall|u: int, k: int|
                        #![trigger trees@[u].nodes@[k]]
                        0 <= u < t && 0 <= k < trees@[u].nodes@.len() implies g.entry_is(
                        base_of(trees@, u) + k,
                        trees@[u].nodes@[k],
                        base_of(trees@, u),
                    ) by {
                        lemma_base_bound(trees@, u, t as int);
                        assert(before.entry_is(
                            base_of(trees@, u) + k,
                            trees@[u].nodes@[k],
                            base_of(trees@, u),
                        ));
                    }
                    assert forall|k: int|
                        #![trigger trees@[t as int].nodes@[k]]
                        0 <= k < i + 1 implies g.entry_is(
                        base + k,
                        trees@[t as int].nodes@[k],
                        base as int,
                    ) by {
                        if k < i {
                            assert(before.entry_is(
                                base + k,
                                trees@[t as int].nodes@[k],
                                base as int,
                            ));
                        }
                    }
                }
                i += 1;
            }
            assert(tree_clean(trees@, nf as int, t as int));
            t += 1;
        }
        let count: usize = g.features.len();
        if count > 0xffff_ffff {
            assert(base_of(trees@, t as int) > u32::MAX);
            return Err(FlattenError::TooManyNodes);
        }
        g.tree_offsets.push(count as u32);
        if count == 0 {
            g.push_node(Node::leaf(F32 { bits: 0 }), 0);
            proof {
                assert forall|u: int, k: int|
                    #![trigger trees@[u].nodes@[k]]
                    0 <= u < trees@.len() && 0 <= k < trees@[u].nodes@.len() implies false by {
                    lemma_base_bound(trees@, u, trees@.len() as int);
                }
            }
        }
        Ok(g)
    }

    /// The canonical numbers of the features that a row of input holds.
    pub fn input_features(&self) -> (f: &[usize])
        ensures
            f@ == self.input_features@,
    {
        self.input_features.as_slice()
    }
}

fn copy_usizes(s: &[usize]) -> (r: Vec<usize>)
    ensures
        r@ == s@,
{
    let mut r: Vec<usize> = Vec::new();
    let mut i: usize = 0;
    while i < s.len()
        invariant
            i <= s@.len(),
            r@ == s@.take(i as int),
        decreases s.len() - i,
    {
        r.push(s[i]);
        assert(s@.take(i + 1) =~= s@.take(i as int).push(s@[i as int]));
        i += 1;
    }
    assert(s@.take(i as int) =~= s@);
    r
}

proof fn lemma_base_bound(trees: Seq<Tree>, u: int, t: int)
    requires
        0 <= u < t <= trees.len(),
    ensures
        0 <= base_of(trees, u),
        base_of(trees, u) + trees[u].nodes@.len() <= base_of(trees, t),
    decreases t,
{
    if u < t - 1 {
        lemma_base_bound(trees, u, t - 1);
    } else {
        lemma_base_nonnegative(trees, u);
    }
}

proof fn lemma_base_nonnegative(trees: Seq<Tree>, t: int)
    ensures
        0 <= base_of(trees, t),
    decreases t,
{
    if t > 0 {
        lemma_base_nonnegative(trees, t - 1);
    }
}

proof fn lemma_bad_node(trees: Seq<Tree>, nf: int, t: int, i: int)
    requires
        0 <= t < trees.len(),
        0 <= i < trees[t].nodes@.len(),
        base_of(trees, t) <= u32::MAX,
        nodes_clean(trees, nf, t, i),
        forall|u: int| 0 <= u < t ==> #[trigger] tree_clean(trees, nf, u),
        node_error(
            trees[t].nodes@[i],
            trees[t].nodes@.len() as int,
            nf,
            base_of(trees, t),
        ) is Some,
    ensures
        !tree_clean(trees, nf, t),
        is_flatten_error(
            trees,
            nf,
            node_error(
                trees[t].nodes@[i],
                trees[t].nodes@.len() as int,
                nf,
                base_of(trees, t),
            )->0,
        ),
{
    assert(node_error(
        trees[t].nodes@[i],
        trees[t].nodes@.len() as int,
        nf,
        base_of(trees, t),
    ) is Some);
}

/// In the flat arrays a row takes the way that it takes down the tree.
pub proof fn law_flat_walk_follows_the_tree(
    g: GpuInferenceModel,
    trees: Seq<Tree>,
    row: Seq<F32>,
    t: int,
    id: int,
    k: int,
    n_features: int,
)
    requires
        g.holds(trees),
        0 <= t < trees.len(),
        0 <= id < trees[t].nodes@.len(),
        nodes_ok(trees[t].nodes@, n_features),
    ensures
        g.flat_walk(row, base_of(trees, t) + id, k) == base_of(trees, t) + walk(
            trees[t].nodes@,
            row,
            id,
            k,
        ),
        0 <= walk(trees[t].nodes@, row, id, k) < trees[t].nodes@.len(),
    decreases k,
{
    if k > 0 {
        law_flat_walk_follows_the_tree(g, trees, row, t, id, k - 1, n_features);
        let nodes = trees[t].nodes@;
        let p = walk(nodes, row, id, k - 1);
        assert(g.entry_is(base_of(trees, t) + p, trees[t].nodes@[p], base_of(trees, t)));
        assert(node_ok(nodes[p], nodes.len() as int, n_features));
    }
}

/// Why a prediction is refused.
#[derive(Clone, Copy, Debug, PartialEq, Eq, Structural)]
pub enum PredictError {
    /// The size of the input does not fit a machine word.
    InputOverflow,
    /// The input does not have one value per row and feature.
    InputLength { got: usize, rows: usize, features: usize, expected: usize },
    /// The size of a row does not fit a machine word.
    RowOverflow,
    /// More features than a 32-bit number counts.
    TooManyFeatures,
    /// More trees than a 32-bit number counts.
    TooManyTrees,
    /// More rows of a batch than a 32-bit number counts.
    TooManyRows,
}

/// Rows that go through the device together.
#[derive(Clone, Copy, Debug, PartialEq, Eq, Structural)]
pub struct PredictBatch {
    pub first_row: usize,
    pub rows: usize,
    /// Blocks of the launch.
    pub grid: usize,
}

/// Rows per batch: what fits the free memory beyond the headroom, within the staging bound.
pub open spec fn batch_rows(free: int, n_features: int, n_rows: int) -> int {
    let usable = imin(imax(free - DEVICE_HEADROOM_BYTES, 0), MAX_STAGING_BYTES as int);
    imin(imax(usable / ((n_features + 1) * 4), 1), n_rows)
}

/// The batch with number `i`.
pub open spec fn batch_at(per_batch: int, n_rows: int, i: int) -> PredictBatch {
    let rows = imin(per_batch, n_rows - i * per_batch);
    PredictBatch {
        first_row: (i * per_batch) as usize,
        rows: rows as usize,
        grid: ceil_div(rows, PREDICT_THREADS as int) as usize,
    }
}

impl GpuInferenceModel {
    /// Cuts a prediction into batches, given the device memory that is free.
    pub fn plan_batches(&self, input_len: usize, n_rows: usize, n_trees: usize, free: usize) -> (r:
        Result<Vec<PredictBatch>, PredictError>)
        ensures
            ({
                let nf = self.n_features as int;
                let per_batch = batch_rows(free as int, nf, n_rows as int);
                match r {
                    Ok(batches) => {
                        &&& n_rows * nf == input_len
                        &&& n_rows == 0 ==> batches@.len() == 0
                        &&& n_rows > 0 ==> (nf + 1) * 4 <= usize::MAX && nf <= u32::MAX && imin(
                            n_trees as int,
                            self.n_trees as int,
                        ) <= u32::MAX && per_batch <= u32::MAX && batches@.len() == ceil_div(
                            n_rows as int,
                            per_batch,
                        )
                        &&& forall|i: int|
                            0 <= i < batches@.len() ==> #[trigger] batches@[i] == batch_at(
                                per_batch,
                                n_rows as int,
                                i,
                            )
                    },
                    Err(e) => if n_rows * nf > usize::MAX {
                        e == PredictError::InputOverflow
                    } else if input_len != n_rows * nf {
                        e == PredictError::InputLength {
                            got: input_len,
                            rows: n_rows,
                            features: self.n_features,
                            expected: (n_rows * nf) as usize,
                        }
                    } else if (nf + 1) * 4 > usize::MAX {
                        n_rows > 0 && e == PredictError::RowOverflow
                    } else if nf > u32::MAX {
                        n_rows > 0 && e == PredictError::TooManyFeatures
                    } else if imin(n_trees as int, self.n_trees as int) > u32::MAX {
                        n_rows > 0 && e == PredictError::TooManyTrees
                    } else {
                        n_rows > 0 && per_batch > u32::MAX && e == PredictError::TooManyRows
                    },
                }
            }),
    {
        let nf: usize = self.n_features;
        match n_rows.checked_mul(nf) {
            None => {
                return Err(PredictError::InputOverflow);
            },
            Some(expected) => {
                if input_len != expected {
                    return Err(
                        PredictError::InputLength {
                            got: input_len,
                            rows: n_rows,
                            features: nf,
                            expected,
                        },
                    );
                }
            },
        }
        let mut batches: Vec<PredictBatch> = Vec::new();
        if n_rows == 0 {
            return Ok(batches);
        }
        if nf > usize::MAX / 4 - 1 {
            return Err(PredictError::RowOverflow);
        }
        let bytes_per_row: usize = (nf + 1) * 4;
        let usable: usize = min_usize(
            free.saturating_sub(DEVICE_HEADROOM_BYTES),
            MAX_STAGING_BYTES,
        );
        let per_batch: usize = min_usize(max_usize(usable / bytes_per_row, 1), n_rows);
        if nf > 0xffff_ffff {
            return Err(PredictError::TooManyFeatures);
        }
        if min_usize(n_trees, self.n_trees) > 0xffff_ffff {
            return Err(PredictError::TooManyTrees);
        }
        if per_batch > 0xffff_ffff {
            return Err(PredictError::TooManyRows);
        }
        let mut first: usize = 0;
        proof {
            lemma_ceil_div(n_rows as int, per_batch as int);
            assert(0 * per_batch == 0) by (nonlinear_arith);
        }
        while first < n_rows
            invariant
                per_batch > 0,
                first <= n_rows,
                first == imin(batches@.len() * per_batch, n_rows as int),
                first < n_rows ==> first == batches@.len() * per_batch,
                batches@.len() <= ceil_div(n_rows as int, per_batch as int),
                first == n_rows ==> batches@.len() == ceil_div(n_rows as int, per_batch as int),
                forall|i: int|
                    0 <= i < batches@.len() ==> #[trigger] batches@[i] == batch_at(
                        per_batch as int,
                        n_rows as int,
                        i,
                    ),
            decreases n_rows - first,
        {
            let rows: usize = min_usize(n_rows - first, per_batch);
            let ghost i = batches@.len() as int;
            proof {
                let p = per_batch as int;
                assert((i + 1) * p == i * p + p) by (nonlinear_arith);
                crate::math::lemma_ceil_div_least(n_rows as int, p, i);
                crate::math::lemma_ceil_div_least(n_rows as int, p, i + 1);
                lemma_ceil_div(rows as int, PREDICT_THREADS as int);
            }
            batches.push(
                PredictBatch {
                    first_row: first,
                    rows,
                    grid: div_ceil_usize(rows, PREDICT_THREADS),
                },
            );
            first = first + rows;
        }
        Ok(batches)
    }
}

/// A batch stays within the staging memory, unless a single row is larger than that.
pub proof fn law_batch_fits_the_staging_memory(free: int, n_features: int, n_rows: int)
    requires
        0 <= free,
        0 <= n_features,
        1 <= n_rows,
    ensures
        1 <= batch_rows(free, n_features, n_rows) <= n_rows,
        batch_rows(free, n_features, n_rows) == 1 || batch_rows(free, n_features, n_rows) * ((
        n_features + 1) * 4) <= imin(imax(free - DEVICE_HEADROOM_BYTES, 0), MAX_STAGING_BYTES as int),
{
    let row = (n_features + 1) * 4;
    let usable = imin(imax(free - DEVICE_HEADROOM_BYTES, 0), MAX_STAGING_BYTES as int);
    let b = batch_rows(free, n_features, n_rows);
    vstd::arithmetic::div_mod::lemma_fundamental_div_mod(usable, row);
    if b != 1 {
        assert(b * row <= usable) by (nonlinear_arith)
            requires
                b <= usable / row,
                row * (usable / row) <= usable,
                row > 0,
        ;
    }
}

} // verus!
