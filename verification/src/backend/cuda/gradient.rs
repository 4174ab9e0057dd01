//! Gradients and leaf values on the device: what may be asked of a context, and what is launched.
use vstd::prelude::*;

use crate::backend::cuda::batch::{is_unpacked, pack_pairs};
use crate::backend::cuda::partition::{GpuRowSpan, PartitionError};
use crate::backend::cuda::session::{gradient_grid, objective_code};
use crate::backend::cuda::train_ctx::GpuTrainCtx;
use crate::float32::F32;
use crate::hist::GradPairFixed;
use crate::math::{ceil_div, div_ceil_usize, imin};
use crate::types::Objective;

verus! {

/// Threads per block of the kernel that assigns leaf values.
pub const LEAF_THREADS: usize = 256;

/// Values of which there is one per training row.
#[derive(Clone, Copy, Debug, PartialEq, Eq, Structural)]
pub enum RowValues {
    Gradients,
    Prediction,
    Labels,
}

/// Why a gradient request is turned down.
#[derive(Clone, Copy, Debug, PartialEq, Eq, Structural)]
pub enum GradientError {
    /// A value per training row is wanted.
    Length { of: RowValues, got: usize, rows: usize },
    /// Gradients are not quantized on the device.
    QuantizationOff,
    /// Gradients are not computed on the device.
    FastMathOff,
    /// Gradients are not computed on the device, so that it has no place for labels.
    NoLabelBuffer,
    /// The prediction does not live on the device: the host's is the current one.
    NoResidentPrediction,
}

/// The launch that applies the last tree and computes the next gradients.
#[derive(Clone, Copy, Debug, PartialEq, Eq, Structural)]
pub struct GradientLaunch {
    pub n_rows: u32,
    pub blocks: u64,
    /// The number by which the kernel knows the objective.
    pub objective: u32,
}

impl GpuTrainCtx {
    /// The words of fixed-point gradients as they are uploaded: one pair per training row.
    pub fn upload_gpair(&self, gpair: &[GradPairFixed]) -> (r: Result<Vec<i64>, GradientError>)
        requires
            gpair@.len() <= usize::MAX / 2,
        ensures
            match r {
                Ok(words) => gpair@.len() == self.shape.n_rows && words@.len() == 2 * gpair@.len()
                    && is_unpacked(words@, gpair@),
                Err(e) => gpair@.len() != self.shape.n_rows && e == (GradientError::Length {
                    of: RowValues::Gradients,
                    got: gpair@.len() as usize,
                    rows: self.shape.n_rows,
                }),
            },
    {
        let n: usize = gpair.len();
        if n != self.shape.n_rows {
            return Err(
                GradientError::Length {
                    of: RowValues::Gradients,
                    got: n,
                    rows: self.shape.n_rows,
                },
            );
        }
        Ok(pack_pairs(gpair))
    }

    /// May so many gradients be uploaded for the device to quantize?
    pub fn upload_and_quantize_gpair(&self, len: usize) -> (r: Result<(), GradientError>)
        ensures
            r == if len != self.shape.n_rows {
                Err(
                    GradientError::Length {
                        of: RowValues::Gradients,
                        got: len,
                        rows: self.shape.n_rows,
                    },
                )
            } else if !self.choices.device_quantize {
                Err(GradientError::QuantizationOff)
            } else {
                Ok(())
            },
    {
        if len != self.shape.n_rows {
            return Err(
                GradientError::Length {
                    of: RowValues::Gradients,
                    got: len,
                    rows: self.shape.n_rows,
                },
            );
        }
        if !self.choices.device_quantize {
            return Err(GradientError::QuantizationOff);
        }
        Ok(())
    }

    /// The launch that applies the last tree and computes the next gradients.
    pub fn fast_gradient_and_quantize(&self, objective: Objective) -> (r: Result<
        GradientLaunch,
        GradientError,
    >)
        requires
            self.wf(),
        ensures
            match r {
                Err(e) => e == GradientError::FastMathOff && !self.choices.fast_math,
                Ok(l) => {
                    &&& self.choices.fast_math
                    &&& l.n_rows == self.shape.n_rows
                    &&& l.blocks == imin(ceil_div(self.shape.n_rows as int, 256), 65535)
                    &&& l.objective == match objective {
                        Objective::SquaredError => 0u32,
                        Objective::Logistic => 1u32,
                    }
                },
            },
    {
        if !self.choices.fast_math {
            return Err(GradientError::FastMathOff);
        }
        let n: usize = self.shape.n_rows;
        Ok(
            GradientLaunch {
                n_rows: n as u32,
                blocks: gradient_grid(n as u64),
                objective: objective_code(objective),
            },
        )
    }

    /// May the device's prediction be copied to a host array of this length?
    pub fn sync_prediction_to_host(&self, len: usize) -> (r: Result<(), GradientError>)
        ensures
            r == if len != self.shape.n_rows {
                Err(
                    GradientError::Length {
                        of: RowValues::Prediction,
                        got: len,
                        rows: self.shape.n_rows,
                    },
                )
            } else if !self.choices.fast_math {
                Err(GradientError::NoResidentPrediction)
            } else {
                Ok(())
            },
    {
        if len != self.shape.n_rows {
            return Err(
                GradientError::Length {
                    of: RowValues::Prediction,
                    got: len,
                    rows: self.shape.n_rows,
                },
            );
        }
        if !self.choices.fast_math {
            return Err(GradientError::NoResidentPrediction);
        }
        Ok(())
    }

    /// The prediction that the device starts from, where it computes gradients itself: the same
    /// margin for every row.
    pub fn init_fast_math(&self, labels: usize, margin: F32) -> (r: Result<
        Vec<F32>,
        GradientError,
    >)
        ensures
            match r {
                Err(e) => e == (if labels != self.shape.n_rows {
                    GradientError::Length {
                        of: RowValues::Labels,
                        got: labels,
                        rows: self.shape.n_rows,
                    }
                } else {
                    GradientError::NoLabelBuffer
                }) && (labels != self.shape.n_rows || !self.choices.fast_math),
                Ok(p) => labels == self.shape.n_rows && self.choices.fast_math && p@ == Seq::new(
                    labels as nat,
                    |i: int| margin,
                ),
            },
    {
        if labels != self.shape.n_rows {
            return Err(
                GradientError::Length {
                    of: RowValues::Labels,
                    got: labels,
                    rows: self.shape.n_rows,
                },
            );
        }
        if !self.choices.fast_math {
            return Err(GradientError::NoLabelBuffer);
        }
        let mut p: Vec<F32> = Vec::new();
        let mut i: usize = 0;
        while i < labels
            invariant
                i <= labels,
                p@.len() == i,
                forall|k: int| 0 <= k < i ==> p@[k] == margin,
            decreases labels - i,
        {
            p.push(margin);
            i += 1;
        }
        assert(p@ =~= Seq::new(labels as nat, |i: int| margin));
        Ok(p)
    }

    /// Blocks of the launch that gives the rows of a span their leaf value; none for an empty
    /// span, for which nothing is launched.
    pub fn leaf_launch(&self, span: GpuRowSpan) -> (r: Result<usize, PartitionError>)
        ensures
            r == if span.within(self.shape.n_rows as int) {
                Ok(ceil_div(span.len as int, LEAF_THREADS as int) as usize)
            } else {
                Err(PartitionError::LeafOutOfRange { offset: span.offset, len: span.len })
            },
    {
        if !span.fits(self.shape.n_rows) {
            return Err(PartitionError::LeafOutOfRange { offset: span.offset, len: span.len });
        }
        Ok(div_ceil_usize(span.len, LEAF_THREADS))
    }
}

/// Position `p` lies in the span.
pub open spec fn in_span(span: GpuRowSpan, p: int) -> bool {
    span.offset <= p < span.offset + span.len
}

/// Row `r` is listed in the span.
pub open spec fn span_has(rows: Seq<u32>, span: GpuRowSpan, r: int) -> bool {
    exists|p: int| #[trigger] in_span(span, p) && rows[p] == r
}

/// The values per row after a leaf gave its own to the rows of its span.
pub open spec fn leaf_assigned(
    delta: Seq<F32>,
    rows: Seq<u32>,
    span: GpuRowSpan,
    value: F32,
) -> Seq<F32> {
    Seq::new(
        delta.len(),
        |r: int|
            if span_has(rows, span, r) {
                value
            } else {
                delta[r]
            },
    )
}

impl GpuTrainCtx {
    /// The rows of a span.
    pub fn download_rows(&self, rows: &[u32], span: GpuRowSpan) -> (r: Result<Vec<u32>, PartitionError>)
        requires
            rows@.len() == self.shape.n_rows,
        ensures
            match r {
                Ok(v) => span.within(rows@.len() as int) && v@ == rows@.subrange(
                    span.offset as int,
                    span.offset + span.len,
                ),
                Err(e) => e == (PartitionError::RowsOutOfRange { offset: span.offset, len: span.len })
                    && !span.within(rows@.len() as int),
            },
    {
        if !span.fits(rows.len()) {
            return Err(PartitionError::RowsOutOfRange { offset: span.offset, len: span.len });
        }
        let end: usize = span.offset + span.len;
        let mut v: Vec<u32> = Vec::new();
        let mut p: usize = span.offset;
        while p < end
            invariant
                span.offset <= p <= end <= rows@.len(),
                v@ == rows@.subrange(span.offset as int, p as int),
            decreases end - p,
        {
            v.push(rows[p]);
            assert(rows@.subrange(span.offset as int, p + 1) =~= rows@.subrange(
                span.offset as int,
                p as int,
            ).push(rows@[p as int]));
            p += 1;
        }
        Ok(v)
    }

    /// Gives every row of a span the value of its leaf.
    pub fn assign_leaf_value(
        &self,
        rows: &[u32],
        span: GpuRowSpan,
        value: F32,
        delta: &mut Vec<F32>,
    ) -> (r: Result<(), PartitionError>)
        requires
            rows@.len() == self.shape.n_rows,
            forall|p: int| 0 <= p < rows@.len() ==> #[trigger] rows@[p] < old(delta)@.len(),
        ensures
            match r {
                Ok(_) => span.within(rows@.len() as int) && final(delta)@ == leaf_assigned(
                    old(delta)@,
                    rows@,
                    span,
                    value,
                ),
                Err(e) => e == (PartitionError::LeafOutOfRange { offset: span.offset, len: span.len })
                    && !span.within(rows@.len() as int) && final(delta)@ == old(delta)@,
            },
    {
        if !span.fits(rows.len()) {
            return Err(PartitionError::LeafOutOfRange { offset: span.offset, len: span.len });
        }
        let ghost before = delta@;
        let end: usize = span.offset + span.len;
        let mut p: usize = span.offset;
        while p < end
            invariant
                span.offset <= p <= end,
                end == span.offset + span.len,
                end <= rows@.len(),
                delta@.len() == before.len(),
                forall|q: int| 0 <= q < rows@.len() ==> #[trigger] rows@[q] < before.len(),
                delta@ == leaf_assigned(
                    before,
                    rows@,
                    GpuRowSpan { offset: span.offset, len: (p - span.offset) as usize },
                    value,
                ),
            decreases end - p,
        {
            let ghost was = GpuRowSpan { offset: span.offset, len: (p - span.offset) as usize };
            let ghost now = GpuRowSpan { offset: span.offset, len: (p + 1 - span.offset) as usize };
            let row: usize = rows[p] as usize;
            delta.set(row, value);
            proof {
                assert forall|r: int| 0 <= r < before.len() implies delta@[r] == leaf_assigned(
                    before,
                    rows@,
                    now,
                    value,
                )[r] by {
                    if r == row {
                        assert(in_span(now, p as int) && rows@[p as int] == r);
                    }
                    if span_has(rows@, was, r) {
                        let q = choose|q: int| #[trigger] in_span(was, q) && rows@[q] == r;
                        assert(in_span(now, q));
                    }
                    if span_has(rows@, now, r) && r != row {
                        let q = choose|q: int| #[trigger] in_span(now, q) && rows@[q] == r;
                        assert(in_span(was, q));
                    }
                }
                assert(delta@ =~= leaf_assigned(before, rows@, now, value));
            }
            p += 1;
        }
        assert(GpuRowSpan { offset: span.offset, len: (end - span.offset) as usize } == span);
        Ok(())
    }
}

/// Where no row is listed twice, a leaf writes the rows of its own span and no other, so the
/// leaves of a tree may be assigned in any order.
pub proof fn law_leaves_write_their_own_rows(
    delta: Seq<F32>,
    rows: Seq<u32>,
    span: GpuRowSpan,
    value: F32,
    p: int,
)
    requires
        rows.no_duplicates(),
        span.within(rows.len() as int),
        0 <= p < rows.len(),
        rows[p] < delta.len(),
    ensures
        leaf_assigned(delta, rows, span, value)[rows[p] as int] == if in_span(span, p) {
            value
        } else {
            delta[rows[p] as int]
        },
{
    let r = rows[p] as int;
    if span_has(rows, span, r) {
        let q = choose|q: int| #[trigger] in_span(span, q) && rows[q] == r;
        assert(rows[q] == rows[p]);
        assert(q == p);
    }
}

/// Which sources of partition columns were reported already.
#[derive(Clone, Copy, Debug, PartialEq, Eq, Structural)]
pub struct ColumnEcho {
    pub resident: bool,
    pub upload: bool,
}

impl ColumnEcho {
    /// The line to report, if any: each source is reported once, and none while profiling is
    /// off.
    pub fn echo(&mut self, profiling: bool, resident: bool) -> (line: Option<&'static str>)
        ensures
            line is Some <==> profiling && !(if resident {
                old(self).resident
            } else {
                old(self).upload
            }),
            line matches Some(l) ==> l@ == (if resident {
                "PART_COL_SOURCE=resident"@
            } else {
                "PART_COL_SOURCE=upload"@
            }),
            final(self).resident == (old(self).resident || (profiling && resident)),
            final(self).upload == (old(self).upload || (profiling && !resident)),
    {
        if !profiling {
            return None;
        }
        if resident {
            if self.resident {
                return None;
            }
            self.resident = true;
            Some("PART_COL_SOURCE=resident")
        } else {
            if self.upload {
                return None;
            }
            self.upload = true;
            Some("PART_COL_SOURCE=upload")
        }
    }
}

} // verus!
