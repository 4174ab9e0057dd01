//! Evaluation metrics by name. What a metric computes is left to the caller's arithmetic.
use vstd::prelude::*;

use crate::text::same_text;
use crate::types::Objective;

verus! {

/// A metric.
pub trait Metric {
    /// The name, as it stands in logs and results.
    spec fn spec_name(&self) -> Seq<char>;

    /// The name, as it stands in logs and results.
    fn name(&self) -> (r: &'static str)
        ensures
            r@ == self.spec_name(),
    ;

    /// Is a smaller value a better one?
    fn lower_is_better(&self) -> (r: bool)
        default_ensures
            r,
    {
        true
    }
}

/// Root of the mean squared error.
#[derive(Clone, Copy, Debug, PartialEq, Eq, Structural)]
pub struct Rmse;

impl Metric for Rmse {
    open spec fn spec_name(&self) -> Seq<char> {
        "rmse"@
    }

    fn name(&self) -> (r: &'static str) {
        "rmse"
    }
}

/// Mean negative log likelihood of labels under the logistic link.
#[derive(Clone, Copy, Debug, PartialEq, Eq, Structural)]
pub struct LogLoss;

impl Metric for LogLoss {
    open spec fn spec_name(&self) -> Seq<char> {
        "logloss"@
    }

    fn name(&self) -> (r: &'static str) {
        "logloss"
    }
}

/// One of the metrics that there are.
#[derive(Clone, Copy, Debug, PartialEq, Eq, Structural)]
pub enum AnyMetric {
    Rmse(Rmse),
    LogLoss(LogLoss),
}

impl Metric for AnyMetric {
    open spec fn spec_name(&self) -> Seq<char> {
        match self {
            AnyMetric::Rmse(m) => m.spec_name(),
            AnyMetric::LogLoss(m) => m.spec_name(),
        }
    }

    fn name(&self) -> (r: &'static str) {
        match self {
            AnyMetric::Rmse(m) => m.name(),
            AnyMetric::LogLoss(m) => m.name(),
        }
    }
}

/// The metric that goes with an objective.
pub fn default_metric(objective: Objective) -> (r: AnyMetric)
    ensures
        r == match objective {
            Objective::SquaredError => AnyMetric::Rmse(Rmse),
            Objective::Logistic => AnyMetric::LogLoss(LogLoss),
        },
{
    match objective {
        Objective::SquaredError => AnyMetric::Rmse(Rmse),
        Objective::Logistic => AnyMetric::LogLoss(LogLoss),
    }
}

/// The metric of a name; `None` for a name that is not known.
pub fn by_name(name: &str) -> (r: Option<AnyMetric>)
    ensures
        r == if name@ == "rmse"@ {
            Some(AnyMetric::Rmse(Rmse))
        } else if name@ == "logloss"@ {
            Some(AnyMetric::LogLoss(LogLoss))
        } else {
            None
        },
        r matches Some(m) ==> m.spec_name() == name@,
{
    if same_text(name, "rmse") {
        Some(AnyMetric::Rmse(Rmse))
    } else if same_text(name, "logloss") {
        Some(AnyMetric::LogLoss(LogLoss))
    } else {
        None
    }
}

} // verus!
