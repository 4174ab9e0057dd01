//! Predicting from an array: which way the rows take, and the value of one row.
use vstd::prelude::*;

use super::workers::{gpu_prediction_selected, sat_product, AUTO_GPU_PREDICT_MIN_WORK};
use crate::float32::F32;
use crate::inference::{add_settled, check_nodes, is_addition, row_margin};
use crate::report::{decimal, decimal_text};
use crate::tree::{
    can_walk, law_walk_ends_within_the_height, leaf_value_of, lemma_children_ok,
    lemma_height_below_unfolded, longest_way, node_ok, step, walk, Model, Node, Tree,
};
use crate::types::Objective;

verus! {

/// Why an array is refused.
#[derive(Clone, Copy, Debug, PartialEq, Eq, Structural)]
pub enum ArrayError {
    /// There is no device support in this build.
    NoDevice,
    /// The array does not have the columns that the model was trained on.
    Width { got: usize, expected: usize },
}

/// The way that the rows of an array take.
#[derive(Clone, Copy, Debug, PartialEq, Eq, Structural)]
pub enum ArrayRoute {
    /// To the device as they lie in memory.
    DeviceDirect,
    /// To the device, without the columns that no tree uses.
    DeviceProjected,
    /// To the device, value by value: the memory is not in row order.
    DeviceGathered,
    /// Through the fast predictor, as they lie in memory.
    HostContiguous,
    /// One row at a time: the memory is not in row order.
    HostByRow,
}

/// What is known of an array and its model.
#[derive(Clone, Copy, Debug, PartialEq, Eq, Structural)]
pub struct ArrayShape {
    pub n_rows: usize,
    pub n_features: usize,
    /// Rows lie one after the other in memory. A column-major array is linear too, but not this.
    pub row_contiguous: bool,
    /// Columns that the model was trained on.
    pub model_features: usize,
    /// Columns that some tree uses.
    pub used_features: usize,
    /// All columns are used, in their order.
    pub uses_all: bool,
    /// Nodes that a row visits at most.
    pub work_per_row: usize,
}

/// The way that the rows of an array take.
pub open spec fn spec_route(shape: ArrayShape, use_gpu: bool, has_device: bool) -> Result<
    ArrayRoute,
    ArrayError,
> {
    let device = use_gpu && shape.work_per_row >= shape.used_features && sat_product(
        shape.n_rows as int,
        shape.work_per_row as int,
    ) >= AUTO_GPU_PREDICT_MIN_WORK;
    if use_gpu && !has_device {
        Err(ArrayError::NoDevice)
    } else if shape.n_features != shape.model_features {
        Err(ArrayError::Width { got: shape.n_features, expected: shape.model_features })
    } else if device && shape.row_contiguous && shape.uses_all {
        Ok(ArrayRoute::DeviceDirect)
    } else if device && shape.row_contiguous {
        Ok(ArrayRoute::DeviceProjected)
    } else if device {
        Ok(ArrayRoute::DeviceGathered)
    } else if shape.row_contiguous {
        Ok(ArrayRoute::HostContiguous)
    } else {
        Ok(ArrayRoute::HostByRow)
    }
}

/// Rows go to the device only where that was asked for and one is there, and once they do, more of
/// them do too. An array of another width than the model's is never scored.
pub proof fn law_more_rows_take_the_same_way(
    shape: ArrayShape,
    more: ArrayShape,
    use_gpu: bool,
    has_device: bool,
)
    requires
        more == (ArrayShape { n_rows: more.n_rows, ..shape }),
        shape.n_rows <= more.n_rows,
    ensures
        ({
            let a = spec_route(shape, use_gpu, has_device);
            let b = spec_route(more, use_gpu, has_device);
            let on_host = |r: Result<ArrayRoute, ArrayError>|
                r == Ok::<ArrayRoute, ArrayError>(ArrayRoute::HostContiguous) || r == Ok::<
                    ArrayRoute,
                    ArrayError,
                >(ArrayRoute::HostByRow);
            &&& a is Err <==> b is Err
            &&& a is Err ==> a == b
            &&& a is Ok ==> shape.n_features == shape.model_features
            &&& a is Ok && !on_host(a) ==> use_gpu && has_device && b == a
            &&& a is Ok && !use_gpu ==> on_host(a)
            &&& a is Ok && use_gpu ==> (on_host(a) <==> shape.work_per_row < shape.used_features
                || shape.n_rows * shape.work_per_row < 8_388_608)
        }),
{
    let w = shape.work_per_row as int;
    assert(shape.n_rows * w <= more.n_rows * w) by (nonlinear_arith)
        requires
            shape.n_rows <= more.n_rows,
            w >= 0,
    ;
}

/// The way that the rows of an array take.
pub fn array_route(shape: ArrayShape, use_gpu: bool, has_device: bool) -> (r: Result<
    ArrayRoute,
    ArrayError,
>)
    ensures
        r == spec_route(shape, use_gpu, has_device),
{
    if use_gpu && !has_device {
        return Err(ArrayError::NoDevice);
    }
    if shape.n_features != shape.model_features {
        return Err(
            ArrayError::Width { got: shape.n_features, expected: shape.model_features },
        );
    }
    let device: bool = gpu_prediction_selected(
        use_gpu,
        shape.n_rows,
        shape.used_features,
        shape.work_per_row,
    );
    if device {
        if !shape.row_contiguous {
            Ok(ArrayRoute::DeviceGathered)
        } else if shape.uses_all {
            Ok(ArrayRoute::DeviceDirect)
        } else {
            Ok(ArrayRoute::DeviceProjected)
        }
    } else if shape.row_contiguous {
        Ok(ArrayRoute::HostContiguous)
    } else {
        Ok(ArrayRoute::HostByRow)
    }
}

/// The value of the leaf that a row reaches.
pub fn tree_value(tree: &Tree, row: &[F32]) -> (r: F32)
    requires
        can_walk(tree.nodes@, row@.len() as int),
    ensures
        r == leaf_value_of(tree.nodes@, row@),
{
    let ghost nodes = tree.nodes@;
    let ghost n = nodes.len() as int;
    let ghost h = crate::tree::height(nodes, 0, n);
    let mut id: usize = 0;
    let ghost mut k: int = 0;
    proof {
        lemma_height_below_unfolded(nodes, 0, n);
    }
    while !tree.nodes[id].is_leaf
        invariant
            nodes == tree.nodes@,
            n == nodes.len(),
            h == crate::tree::height(nodes, 0, n),
            can_walk(nodes, row@.len() as int),
            0 <= k <= h,
            id < n,
            id == walk(nodes, row@, 0, k),
        decreases h - k,
    {
        let node: Node = tree.nodes[id];
        proof {
            assert(node_ok(nodes[id as int], n, row@.len() as int));
            if k >= h {
                law_walk_ends_within_the_height(nodes, row@, k);
            }
            assert(walk(nodes, row@, 0, k + 1) == step(nodes, row@, id as int));
        }
        let v: F32 = row[node.feat as usize];
        let left: bool = if v.is_nan() {
            node.default_left
        } else {
            v.less(node.split_cond)
        };
        id = if left {
            node.left as usize
        } else {
            node.right as usize
        };
        proof {
            k = k + 1;
        }
    }
    proof {
        crate::tree::lemma_walk_settles(nodes, row@, 0, k, n);
    }
    tree.nodes[id].leaf_value
}

/// The first `n_trees` trees of a model, or all where there are no more, can be walked with rows
/// of this width.
pub open spec fn trees_ok(trees: Seq<Tree>, n_trees: int, width: int) -> bool {
    forall|t: int|
        0 <= t < crate::math::imin(n_trees, trees.len() as int) ==> can_walk(
            (#[trigger] trees[t]).nodes@,
            width,
        )
}

/// Can the first `n_trees` trees of a model be walked with rows of this width?
pub fn can_walk_all(trees: &Vec<Tree>, n_trees: usize, width: usize) -> (r: bool)
    ensures
        r == trees_ok(trees@, n_trees as int, width as int),
{
    let n: usize = crate::math::min_usize(n_trees, trees.len());
    let mut t: usize = 0;
    while t < n
        invariant
            t <= n,
            n == crate::math::imin(n_trees as int, trees@.len() as int),
            forall|u: int|
                0 <= u < t ==> can_walk((#[trigger] trees@[u]).nodes@, width as int),
        decreases n - t,
    {
        let nodes: &Vec<Node> = &trees[t].nodes;
        if nodes.len() == 0 || check_nodes(nodes, width).is_some() {
            assert(!can_walk(trees@[t as int].nodes@, width as int));
            return false;
        }
        proof {
            lemma_children_ok(nodes@, width as int);
        }
        if longest_way(nodes).is_none() {
            assert(!can_walk(trees@[t as int].nodes@, width as int));
            return false;
        }
        t += 1;
    }
    true
}

/// The margin of one row with the first trees of a model, added up in their order by `plus`.
pub fn predict_margin_upto<F: Fn(F32, F32) -> F32>(
    model: &Model,
    row: &[F32],
    n_trees: usize,
    base_margin: F32,
    plus: F,
) -> (r: F32)
    requires
        trees_ok(model.trees@, n_trees as int, row@.len() as int),
        is_addition(plus),
    ensures
        r == row_margin(
            model.trees@,
            base_margin,
            plus,
            row@,
            crate::math::imin(n_trees as int, model.trees@.len() as int),
        ),
{
    let n: usize = crate::math::min_usize(n_trees, model.trees.len());
    let mut margin: F32 = base_margin;
    let mut t: usize = 0;
    while t < n
        invariant
            t <= n,
            n == crate::math::imin(n_trees as int, model.trees@.len() as int),
            trees_ok(model.trees@, n_trees as int, row@.len() as int),
            is_addition(plus),
            margin == row_margin(model.trees@, base_margin, plus, row@, t as int),
        decreases n - t,
    {
        let value: F32 = tree_value(&model.trees[t], row);
        margin = add_settled(&plus, margin, value);
        t += 1;
    }
    margin
}

/// The prediction of one row: its margin, or what `link` makes of it where the model is
/// logistic and margins were not asked for.
pub fn predict_value<F: Fn(F32, F32) -> F32, G: Fn(F32) -> F32>(
    model: &Model,
    row: &[F32],
    n_trees: usize,
    output_margin: bool,
    base_margin: F32,
    plus: F,
    link: G,
) -> (r: F32)
    requires
        trees_ok(model.trees@, n_trees as int, row@.len() as int),
        is_addition(plus),
        forall|v: F32| #[trigger] link.requires((v,)),
    ensures
        ({
            let margin = row_margin(
                model.trees@,
                base_margin,
                plus,
                row@,
                crate::math::imin(n_trees as int, model.trees@.len() as int),
            );
            if !output_margin && model.objective == Objective::Logistic {
                link.ensures((margin,), r)
            } else {
                r == margin
            }
        }),
{
    let margin: F32 = predict_margin_upto(model, row, n_trees, base_margin, plus);
    if output_margin {
        return margin;
    }
    match model.objective {
        Objective::SquaredError => margin,
        Objective::Logistic => link(margin),
    }
}

/// A model in a few words.
pub open spec fn told_model(m: Model) -> Seq<char> {
    "<ferrisboost.Model "@ + decimal(m.trees@.len()) + " 棵树,"@ + decimal(m.n_features as nat)
        + " 个特征"@ + (match m.best_iteration {
        Some(b) => ",best_iteration="@ + decimal(b as nat),
        None => ""@,
    }) + ">"@
}

/// A model in a few words.
pub fn model_text(m: &Model) -> (r: String)
    ensures
        r@ == told_model(*m),
{
    let best: String = match m.best_iteration {
        Some(b) => ",best_iteration=".to_owned().concat(decimal_text(b as u64).as_str()),
        None => "".to_owned(),
    };
    "<ferrisboost.Model ".to_owned().concat(decimal_text(m.trees.len() as u64).as_str()).concat(
        " 棵树,",
    ).concat(decimal_text(m.n_features as u64).as_str()).concat(" 个特征").concat(
        best.as_str(),
    ).concat(">")
}

/// Where a model is trained, in a word.
pub fn backend_text(device: Option<usize>) -> (r: String)
    ensures
        r@ == match device {
            Some(d) => "cuda:"@ + decimal(d as nat),
            None => "cpu"@,
        },
{
    match device {
        Some(d) => "cuda:".to_owned().concat(decimal_text(d as u64).as_str()),
        None => "cpu".to_owned(),
    }
}

} // verus!
