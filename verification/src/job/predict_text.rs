//! Predictions for CSV texts.
use vstd::prelude::*;

use super::array::{predict_value, trees_ok};
use super::predict::{binding, check_binding, SchemaError};
use super::score::score_rows;
use crate::float32::F32;
use crate::inference::{
    are_renumbered, is_addition, is_compaction, is_used_list, law_compact_prediction_is_bit_exact,
    projected, row_margin, uses_feature, CompactInferenceModel, InferenceError,
};
use crate::math::imin;
use crate::source::input::InputFormat;
use crate::source::predict_text::{is_first_fault, is_rows, projected_rows, rows_in, Asked, TextFault};
use crate::tree::{can_walk, height, node_ok, nodes_ok, walks_end, Model, Node, Tree};
use crate::types::{Objective, SchemaMode};

verus! {

/// What is predicted: margins or values, with how many trees.
#[derive(Clone, Copy, Debug, PartialEq, Eq, Structural)]
pub struct Wanted {
    pub output_margin: bool,
    pub n_trees: usize,
    /// Where margins start.
    pub base_margin: F32,
}

/// A model predicts this value for a row: its margin, or what `link` makes of it where the model
/// is logistic and margins were not asked for.
pub open spec fn is_prediction<F: Fn(F32, F32) -> F32, G: Fn(F32) -> F32>(
    model: Model,
    w: Wanted,
    plus: F,
    link: G,
    row: Seq<F32>,
    v: F32,
) -> bool {
    let margin = row_margin(
        model.trees@,
        w.base_margin,
        plus,
        row,
        imin(w.n_trees as int, model.trees@.len() as int),
    );
    if !w.output_margin && model.objective == Objective::Logistic {
        link.ensures((margin,), v)
    } else {
        v == margin
    }
}

/// A model predicts this value for every row that has these values in these features.
pub open spec fn predicts<F: Fn(F32, F32) -> F32, G: Fn(F32) -> F32>(
    model: Model,
    w: Wanted,
    plus: F,
    link: G,
    features: Seq<usize>,
    values: Seq<F32>,
    v: F32,
) -> bool {
    forall|row: Seq<F32>| #[trigger]
        projected(row, features) == values ==> is_prediction(model, w, plus, link, row, v)
}

/// Why nothing is predicted.
pub enum PredictTextError {
    /// Files of this kind cannot be bound to the model.
    Schema(SchemaError),
    /// The model has no features, or uses one that it does not have.
    Model(InferenceError),
    /// The first text without rows.
    File { file: usize, fault: TextFault },
}

/// A model has features, and its trees use no others.
pub open spec fn has_its_features(model: Model) -> bool {
    &&& model.n_features > 0
    &&& forall|f: int| f >= model.n_features ==> !#[trigger] uses_feature(model.trees@, f)
}

/// What is asked of texts: the features that the model uses.
pub open spec fn asks(
    model: Model,
    has_header: bool,
    readers: usize,
    features: Seq<usize>,
    a: Asked,
) -> bool {
    &&& a.has_header == has_header
    &&& a.readers == readers
    &&& a.feature_names@ == model.feature_names@
    &&& a.n_features == model.n_features
    &&& a.projected@ == features
    &&& is_used_list(features, model.trees@)
}

/// The rows of the features that a model uses, in all texts.
pub open spec fn are_rows_for(
    texts: Seq<Vec<u8>>,
    model: Model,
    has_header: bool,
    readers: usize,
    a: Asked,
    rows: Seq<Seq<F32>>,
) -> bool {
    asks(model, has_header, readers, a.projected@, a) && is_rows(texts, a, rows)
}

/// These are the predictions for the rows of all texts, in their order.
pub open spec fn are_predictions<F: Fn(F32, F32) -> F32, G: Fn(F32) -> F32>(
    texts: Seq<Vec<u8>>,
    model: Model,
    has_header: bool,
    readers: usize,
    w: Wanted,
    plus: F,
    link: G,
    out: Seq<F32>,
) -> bool {
    exists|a: Asked, rows: Seq<Seq<F32>>|
        {
            &&& #[trigger] are_rows_for(texts, model, has_header, readers, a, rows)
            &&& out.len() == rows.len()
            &&& forall|i: int|
                0 <= i < out.len() ==> predicts(
                    model,
                    w,
                    plus,
                    link,
                    a.projected@,
                    rows[i],
                    #[trigger] out[i],
                )
        }
}

/// Some text has no rows: the first such, and why.
pub open spec fn is_input_fault(
    texts: Seq<Vec<u8>>,
    model: Model,
    has_header: bool,
    readers: usize,
    file: int,
    fault: TextFault,
) -> bool {
    exists|a: Asked| #[trigger]
        asks(model, has_header, readers, a.projected@, a) && is_first_fault(texts, a, file, fault)
}

/// The ways down a renumbered tree are those down the tree.
proof fn lemma_renumbered_height(
    nodes: Seq<Node>,
    compact: Seq<Node>,
    features: Seq<usize>,
    n_features: int,
    id: int,
    d: int,
)
    requires
        nodes_ok(nodes, n_features),
        are_renumbered(nodes, compact, features),
        0 <= id < nodes.len(),
    ensures
        height(compact, id, d) == height(nodes, id, d),
    decreases d,
{
    assert(crate::inference::is_renumbered(nodes[id], compact[id], features));
    if d > 0 && !nodes[id].is_leaf {
        assert(node_ok(nodes[id], nodes.len() as int, n_features));
        lemma_renumbered_height(
            nodes,
            compact,
            features,
            n_features,
            nodes[id].left as int,
            d - 1,
        );
        lemma_renumbered_height(
            nodes,
            compact,
            features,
            n_features,
            nodes[id].right as int,
            d - 1,
        );
    }
}

/// The trees of a compact model can be walked if those of the model can.
proof fn lemma_compact_trees_ok(canonical: Model, compact: CompactInferenceModel, n_trees: int)
    requires
        compact.compacts(canonical),
        trees_ok(canonical.trees@, n_trees, canonical.n_features as int),
    ensures
        trees_ok(compact.model.trees@, n_trees, compact.canonical_features@.len() as int),
{
    let features = compact.canonical_features@;
    let nf = canonical.n_features as int;
    assert forall|t: int|
        0 <= t < imin(n_trees, compact.model.trees@.len() as int) implies can_walk(
        (#[trigger] compact.model.trees@[t]).nodes@,
        features.len() as int,
    ) by {
        let nodes = canonical.trees@[t].nodes@;
        let small = compact.model.trees@[t].nodes@;
        assert(can_walk(nodes, nf));
        assert(are_renumbered(nodes, small, features));
        assert forall|i: int| 0 <= i < small.len() implies node_ok(
            #[trigger] small[i],
            small.len() as int,
            features.len() as int,
        ) by {
            assert(crate::inference::is_renumbered(nodes[i], small[i], features));
            assert(node_ok(nodes[i], nodes.len() as int, nf));
        }
        lemma_renumbered_height(nodes, small, features, nf, 0, nodes.len() as int);
        assert(walks_end(small));
    }
}

/// Predicts for rows, each into its own place. The rows are scored by up to `workers` workers,
/// which does not change the result.
pub fn predict_rows<
    F: Fn(F32, F32) -> F32 + Copy + Sync + Send,
    G: Fn(F32) -> F32 + Copy + Sync + Send,
>(rows: &Vec<Vec<F32>>, model: &Model, w: Wanted, workers: usize, plus: F, link: G) -> (out: Vec<
    F32,
>)
    requires
        forall|i: int|
            0 <= i < rows@.len() ==> trees_ok(
                model.trees@,
                w.n_trees as int,
                (#[trigger] rows@[i])@.len() as int,
            ),
        is_addition(plus),
        forall|v: F32| #[trigger] link.requires((v,)),
    ensures
        out@.len() == rows@.len(),
        forall|i: int|
            0 <= i < rows@.len() ==> is_prediction(
                *model,
                w,
                plus,
                link,
                rows@[i]@,
                #[trigger] out@[i],
            ),
{
    let score = |i: usize| -> (v: F32)
        requires
            i < rows@.len(),
            trees_ok(model.trees@, w.n_trees as int, rows@[i as int]@.len() as int),
            is_addition(plus),
            forall|v: F32| #[trigger] link.requires((v,)),
        ensures
            is_prediction(*model, w, plus, link, rows@[i as int]@, v),
        {
            predict_value(
                model,
                rows[i].as_slice(),
                w.n_trees,
                w.output_margin,
                w.base_margin,
                plus,
                link,
            )
        };
    let n: usize = rows.len();
    let out: Vec<F32> = score_rows(n, workers, score);
    proof {
        assert forall|i: int| 0 <= i < n implies is_prediction(
            *model,
            w,
            plus,
            link,
            rows@[i]@,
            #[trigger] out@[i],
        ) by {
            assert(score.ensures((i as usize,), out@[i]));
        }
    }
    out
}

/// Predicts for all rows of CSV texts, in their order. Only the features that the model uses are
/// read, with `readers` threads; the rows are scored by up to `workers` workers, which does not
/// change the result.
pub fn predict_texts<
    F: Fn(F32, F32) -> F32 + Copy + Sync + Send,
    G: Fn(F32) -> F32 + Copy + Sync + Send,
>(
    texts: &[Vec<u8>],
    model: &Model,
    has_header: bool,
    readers: usize,
    w: Wanted,
    workers: usize,
    plus: F,
    link: G,
) -> (r: Result<Vec<F32>, PredictTextError>)
    requires
        trees_ok(model.trees@, w.n_trees as int, model.n_features as int),
        model.feature_names@.len() == 0 || model.feature_names@.len() >= model.n_features,
        is_addition(plus),
        forall|v: F32| #[trigger] link.requires((v,)),
    ensures
        ({
            let bound = binding(
                model.schema_mode,
                model.feature_names@.len() as int,
                InputFormat::Csv,
                has_header,
            );
            match r {
                Err(PredictTextError::Schema(e)) => bound == Err::<SchemaMode, SchemaError>(e),
                Err(PredictTextError::Model(e)) => bound is Ok && is_compaction(*model, Err(e)),
                Err(PredictTextError::File { file, fault }) => bound is Ok && has_its_features(
                    *model,
                ) && is_input_fault(texts@, *model, has_header, readers, file as int, fault),
                Ok(out) => bound is Ok && has_its_features(*model) && are_predictions(
                    texts@,
                    *model,
                    has_header,
                    readers,
                    w,
                    plus,
                    link,
                    out@,
                ),
            }
        }),
{
    match check_binding(
        model.schema_mode,
        model.feature_names.len(),
        InputFormat::Csv,
        has_header,
    ) {
        Err(e) => {
            return Err(PredictTextError::Schema(e));
        },
        Ok(_) => {},
    }
    let compact: CompactInferenceModel = match CompactInferenceModel::new(model) {
        Err(e) => {
            return Err(PredictTextError::Model(e));
        },
        Ok(c) => c,
    };
    let a: Asked = Asked {
        has_header,
        readers,
        feature_names: model.feature_names.as_slice(),
        n_features: model.n_features,
        projected: compact.canonical_features.as_slice(),
    };
    let ghost features = compact.canonical_features@;
    proof {
        lemma_compact_trees_ok(*model, compact, w.n_trees as int);
        assert(asks(*model, has_header, readers, features, a));
        lemma_used_are_asked(a, model.trees@);
    }
    let rows: Vec<Vec<F32>> = match projected_rows(texts, &a) {
        Err(crate::source::predict_text::RowsError::Projection(_)) => {
            assert(false);
            return Err(PredictTextError::Model(InferenceError::NoFeatures));
        },
        Err(crate::source::predict_text::RowsError::File { file, fault }) => {
            assert(asks(*model, has_header, readers, a.projected@, a));
            return Err(PredictTextError::File { file, fault });
        },
        Ok(rows) => rows,
    };
    let out: Vec<F32> = predict_rows(&rows, &compact.model, w, workers, plus, link);
    proof {
        assert forall|i: int| 0 <= i < out@.len() implies predicts(
            *model,
            w,
            plus,
            link,
            a.projected@,
            rows_in(rows@)[i],
            #[trigger] out@[i],
        ) by {
            assert(is_prediction(compact.model, w, plus, link, rows@[i]@, out@[i]));
            assert forall|row: Seq<F32>| #[trigger]
                projected(row, features) == rows@[i]@ implies is_prediction(
                *model,
                w,
                plus,
                link,
                row,
                out@[i],
            ) by {
                law_compact_prediction_is_bit_exact(
                    *model,
                    compact,
                    w.base_margin,
                    plus,
                    row,
                    imin(w.n_trees as int, model.trees@.len() as int),
                );
            }
        }
        assert(are_rows_for(texts@, *model, has_header, readers, a, rows_in(rows@)));
    }
    Ok(out)
}

/// The features that a model uses are some, each once, in rising order.
proof fn lemma_used_are_asked(a: Asked, trees: Seq<Tree>)
    requires
        is_used_list(a.projected@, trees),
        forall|j: int| 0 <= j < a.projected@.len() ==> (#[trigger] a.projected@[j]) < a.n_features,
        forall|f: int| #[trigger] uses_feature(trees, f) ==> 0 <= f <= usize::MAX,
    ensures
        a.projects(),
{
    if exists|f: int| uses_feature(trees, f) {
        let f = choose|f: int| uses_feature(trees, f);
        assert(a.projected@.contains(f as usize));
    }
}

} // verus!
