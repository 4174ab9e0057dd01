//! Binding the columns of a file to the features of a model, and the rows that come out.
use vstd::prelude::*;
use vstd::string::*;

use super::input::projection_and_order;
use crate::float32::F32;
use crate::text::same_text;

verus! {

/// Why a file's columns cannot be bound.
#[derive(Clone, Copy, Debug, PartialEq, Eq, Structural)]
pub enum BindError {
    /// No feature is asked for.
    EmptyProjection,
    /// The asked features are not in rising order, or one is not a feature of the model.
    BadProjection,
    /// A model without names takes a file with exactly as many columns as it has features.
    ColumnCount { columns: usize, features: usize },
    /// The file has no column with the name of feature number `feature`.
    MissingFeature { feature: usize },
}

/// The first place at which a name stands.
pub open spec fn place_of(names: Seq<String>, want: Seq<char>, at: int) -> bool {
    &&& 0 <= at < names.len()
    &&& names[at]@ == want
    &&& forall|i: int| 0 <= i < at ==> (#[trigger] names[i])@ != want
}

/// A name that stands nowhere.
pub open spec fn absent(names: Seq<String>, want: Seq<char>) -> bool {
    forall|i: int| 0 <= i < names.len() ==> (#[trigger] names[i])@ != want
}

/// The first place of a name.
fn find(names: &[String], want: &String) -> (r: Option<usize>)
    ensures
        match r {
            Some(at) => place_of(names@, want@, at as int),
            None => absent(names@, want@),
        },
{
    let mut i: usize = 0;
    while i < names.len()
        invariant
            i <= names@.len(),
            forall|k: int| 0 <= k < i ==> (#[trigger] names@[k])@ != want@,
        decreases names.len() - i,
    {
        if same_text(names[i].as_str(), want.as_str()) {
            return Some(i);
        }
        i += 1;
    }
    None
}

/// The column of a file for each feature of a model. A model with names takes each feature from
/// the first column of its name, wherever that stands, and does not look at other columns. A
/// model without names takes the columns as they stand, and then there may be no other.
pub fn bind(file_names: &[String], feature_names: &[String], n_features: usize) -> (r: Result<
    Vec<usize>,
    BindError,
>)
    ensures
        if feature_names@.len() == 0 {
            if file_names@.len() == n_features {
                r matches Ok(p) && p@.len() == n_features && forall|i: int|
                    0 <= i < n_features ==> (#[trigger] p@[i]) == i
            } else {
                r == Err::<Vec<usize>, BindError>(
                    BindError::ColumnCount {
                        columns: file_names@.len() as usize,
                        features: n_features,
                    },
                )
            }
        } else {
            match r {
                Ok(p) => p@.len() == feature_names@.len() && forall|i: int|
                    0 <= i < p@.len() ==> place_of(
                        file_names@,
                        feature_names@[i]@,
                        (#[trigger] p@[i]) as int,
                    ),
                Err(e) => e is MissingFeature && ({
                    let f = e->feature as int;
                    &&& 0 <= f < feature_names@.len()
                    &&& absent(file_names@, feature_names@[f]@)
                    &&& forall|i: int|
                        0 <= i < f ==> !absent(file_names@, (#[trigger] feature_names@[i])@)
                }),
            }
        },
{
    let n_files: usize = file_names.len();
    let mut proj: Vec<usize> = Vec::new();
    if feature_names.len() == 0 {
        if n_files != n_features {
            return Err(BindError::ColumnCount { columns: n_files, features: n_features });
        }
        let mut i: usize = 0;
        while i < n_features
            invariant
                i <= n_features,
                proj@.len() == i,
                forall|k: int| 0 <= k < i ==> (#[trigger] proj@[k]) == k,
            decreases n_features - i,
        {
            proj.push(i);
            i += 1;
        }
        return Ok(proj);
    }
    let mut i: usize = 0;
    while i < feature_names.len()
        invariant
            i <= feature_names@.len(),
            feature_names@.len() > 0,
            proj@.len() == i,
            forall|k: int|
                0 <= k < i ==> place_of(
                    file_names@,
                    feature_names@[k]@,
                    (#[trigger] proj@[k]) as int,
                ),
        decreases feature_names.len() - i,
    {
        match find(file_names, &feature_names[i]) {
            Some(at) => {
                proj.push(at);
            },
            None => {
                proof {
                    assert forall|k: int| 0 <= k < i implies !absent(
                        file_names@,
                        (#[trigger] feature_names@[k])@,
                    ) by {
                        let at = proj@[k] as int;
                        assert(file_names@[at]@ == feature_names@[k]@);
                    }
                }
                return Err(BindError::MissingFeature { feature: i });
            },
        }
        i += 1;
    }
    Ok(proj)
}

/// Features of the model, each once, in rising order.
pub open spec fn projection_ok(projected: Seq<usize>, n_features: usize) -> bool {
    &&& super::input::rising(projected)
    &&& forall|i: int| 0 <= i < projected.len() ==> (#[trigger] projected[i]) < n_features
}

/// Checks which features of a model are asked for.
pub fn check_projection(projected: &[usize], n_features: usize) -> (r: Result<(), BindError>)
    ensures
        r == if projected@.len() == 0 {
            Err::<(), BindError>(BindError::EmptyProjection)
        } else if !projection_ok(projected@, n_features) {
            Err(BindError::BadProjection)
        } else {
            Ok(())
        },
{
    if projected.len() == 0 {
        return Err(BindError::EmptyProjection);
    }
    let mut i: usize = 0;
    while i < projected.len()
        invariant
            i <= projected@.len(),
            projected@.len() > 0,
            forall|p: int, q: int|
                0 <= p < q < i ==> #[trigger] projected@[p] < #[trigger] projected@[q],
            forall|k: int| 0 <= k < i ==> (#[trigger] projected@[k]) < n_features,
        decreases projected.len() - i,
    {
        if projected[i] >= n_features {
            assert(projected@[i as int] >= n_features);
            return Err(BindError::BadProjection);
        }
        if i > 0 && projected[i - 1] >= projected[i] {
            assert(!(projected@[i - 1] < projected@[i as int]));
            return Err(BindError::BadProjection);
        }
        i += 1;
    }
    Ok(())
}

/// How to read the asked features from a file.
pub struct ColumnPlan {
    /// The columns to read, each once, in rising order.
    pub mask: Vec<usize>,
    /// For each asked feature, which of the columns read it is.
    pub order: Vec<usize>,
}

/// Binds a whole model to a file, and plans to read only the asked features.
pub fn plan_columns(
    file_names: &[String],
    feature_names: &[String],
    n_features: usize,
    projected: &[usize],
) -> (r: Result<ColumnPlan, BindError>)
    requires
        feature_names@.len() == 0 || feature_names@.len() >= n_features,
    ensures
        match r {
            Ok(plan) => {
                &&& projected@.len() > 0
                &&& projection_ok(projected@, n_features)
                &&& plan.order@.len() == projected@.len()
                &&& super::input::rising(plan.mask@)
                &&& forall|i: int|
                    0 <= i < projected@.len() ==> (#[trigger] plan.order@[i]) < plan.mask@.len()
                        && column_for(
                        file_names@,
                        feature_names@,
                        n_features,
                        projected@[i] as int,
                        plan.mask@[plan.order@[i] as int] as int,
                    )
                &&& forall|j: int|
                    0 <= j < plan.mask@.len() ==> asked(
                        file_names@,
                        feature_names@,
                        n_features,
                        projected@,
                        (#[trigger] plan.mask@[j]) as int,
                    )
            },
            Err(BindError::EmptyProjection) => projected@.len() == 0,
            Err(BindError::BadProjection) => projected@.len() > 0 && !projection_ok(
                projected@,
                n_features,
            ),
            Err(BindError::ColumnCount { columns, features }) => {
                &&& projected@.len() > 0 && projection_ok(projected@, n_features)
                &&& feature_names@.len() == 0 && file_names@.len() != n_features
                &&& columns == file_names@.len() && features == n_features
            },
            Err(BindError::MissingFeature { feature }) => {
                &&& projected@.len() > 0 && projection_ok(projected@, n_features)
                &&& feature < feature_names@.len()
                &&& absent(file_names@, feature_names@[feature as int]@)
                &&& forall|i: int|
                    0 <= i < feature ==> !absent(file_names@, (#[trigger] feature_names@[i])@)
            },
        },
{
    let n_columns: usize = file_names.len();
    assert(n_columns == file_names@.len());
    match check_projection(projected, n_features) {
        Err(e) => {
            return Err(e);
        },
        Ok(()) => {},
    }
    let canonical: Vec<usize> = match bind(file_names, feature_names, n_features) {
        Err(e) => {
            return Err(e);
        },
        Ok(c) => c,
    };
    let mut proj: Vec<usize> = Vec::new();
    let mut i: usize = 0;
    while i < projected.len()
        invariant
            i <= projected@.len(),
            canonical@.len() >= n_features,
            projection_ok(projected@, n_features),
            forall|k: int|
                0 <= k < n_features ==> column_for(
                    file_names@,
                    feature_names@,
                    n_features,
                    k,
                    (#[trigger] canonical@[k]) as int,
                ),
            proj@.len() == i,
            forall|k: int|
                0 <= k < i ==> column_for(
                    file_names@,
                    feature_names@,
                    n_features,
                    projected@[k] as int,
                    (#[trigger] proj@[k]) as int,
                ),
        decreases projected.len() - i,
    {
        assert(projected@[i as int] < n_features);
        proj.push(canonical[projected[i]]);
        i += 1;
    }
    let (mask, order) = projection_and_order(proj.as_slice());
    proof {
        assert forall|j: int| 0 <= j < mask@.len() implies asked(
            file_names@,
            feature_names@,
            n_features,
            projected@,
            (#[trigger] mask@[j]) as int,
        ) by {
            assert(mask@.contains(mask@[j]));
            let k = choose|k: int| 0 <= k < proj@.len() && proj@[k] == mask@[j];
            assert(column_for(
                file_names@,
                feature_names@,
                n_features,
                projected@[k] as int,
                mask@[j] as int,
            ));
        }
    }
    Ok(ColumnPlan { mask, order })
}

/// Column `at` of a file holds feature `feature` of a model.
pub open spec fn column_for(
    file_names: Seq<String>,
    feature_names: Seq<String>,
    n_features: usize,
    feature: int,
    at: int,
) -> bool {
    if feature_names.len() == 0 {
        file_names.len() == n_features && at == feature && 0 <= feature < n_features
    } else {
        0 <= feature < feature_names.len() && place_of(file_names, feature_names[feature]@, at)
    }
}

/// Column `at` of a file holds one of the asked features.
pub open spec fn asked(
    file_names: Seq<String>,
    feature_names: Seq<String>,
    n_features: usize,
    projected: Seq<usize>,
    at: int,
) -> bool {
    exists|i: int|
        0 <= i < projected.len() && column_for(
            file_names,
            feature_names,
            n_features,
            (#[trigger] projected[i]) as int,
            at,
        )
}

/// A named model reads each feature from a column of its name, in whatever order the columns of
/// a file stand.
pub proof fn law_named_binding_follows_the_names(
    file_names: Seq<String>,
    other_names: Seq<String>,
    feature_names: Seq<String>,
    n_features: usize,
    feature: int,
    at: int,
    other_at: int,
)
    requires
        feature_names.len() > 0,
        column_for(file_names, feature_names, n_features, feature, at),
        column_for(other_names, feature_names, n_features, feature, other_at),
    ensures
        file_names[at]@ == other_names[other_at]@,
        file_names[at]@ == feature_names[feature]@,
{
}

/// Turns columns into rows: the value of column `c` in row `r` becomes value `c` of row `r`.
pub fn batch_to_rows(columns: &[Vec<F32>], n_rows: usize) -> (r: Vec<Vec<F32>>)
    requires
        forall|c: int| 0 <= c < columns@.len() ==> (#[trigger] columns@[c])@.len() == n_rows,
    ensures
        r@.len() == n_rows,
        forall|i: int|
            0 <= i < n_rows ==> (#[trigger] r@[i])@ == Seq::new(
                columns@.len(),
                |c: int| columns@[c]@[i],
            ),
{
    let mut rows: Vec<Vec<F32>> = Vec::new();
    let mut i: usize = 0;
    while i < n_rows
        invariant
            i <= n_rows,
            forall|c: int| 0 <= c < columns@.len() ==> (#[trigger] columns@[c])@.len() == n_rows,
            rows@.len() == i,
            forall|k: int|
                0 <= k < i ==> (#[trigger] rows@[k])@ == Seq::new(
                    columns@.len(),
                    |c: int| columns@[c]@[k],
                ),
        decreases n_rows - i,
    {
        let mut row: Vec<F32> = Vec::new();
        let mut c: usize = 0;
        while c < columns.len()
            invariant
                i < n_rows,
                c <= columns@.len(),
                forall|k: int|
                    0 <= k < columns@.len() ==> (#[trigger] columns@[k])@.len() == n_rows,
                row@.len() == c,
                forall|k: int| 0 <= k < c ==> (#[trigger] row@[k]) == columns@[k]@[i as int],
            decreases columns.len() - c,
        {
            row.push(columns[c][i]);
            c += 1;
        }
        assert(row@ =~= Seq::new(columns@.len(), |c: int| columns@[c]@[i as int]));
        rows.push(row);
        i += 1;
    }
    rows
}

} // verus!
