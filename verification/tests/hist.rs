//! Histograms of fixed-point gradients.
use ferrisboost::hist::{
    build, build_all_nodes, build_tiled, node_sum, subtract, subtract_in_place, tile_rows,
    GradPairFixed, Histogram,
};
use ferrisboost::types::MISSING_BIN;

type Bin = u8;
type RowId = u32;

fn zeros(n: usize) -> Vec<GradPairFixed> {
    vec![GradPairFixed::zero(); n]
}

/// Gradients and Hessians with a common power-of-two scale that no sum of all rows overflows.
struct Quantizer {
    grad: f64,
    hess: f64,
}

impl Quantizer {
    fn new(pairs: &[(f32, f32)]) -> Quantizer {
        let largest = |xs: Vec<f32>| xs.iter().fold(0.0f64, |m, x| m.max((*x as f64).abs()));
        let scale = |m: f64| {
            let bound = m * pairs.len() as f64;
            2f64.powi(61 - bound.max(1e-300).log2().ceil() as i32)
        };
        Quantizer {
            grad: scale(largest(pairs.iter().map(|p| p.0).collect())),
            hess: scale(largest(pairs.iter().map(|p| p.1).collect())),
        }
    }

    fn to_fixed(&self, p: (f32, f32)) -> GradPairFixed {
        GradPairFixed {
            grad: (p.0 as f64 * self.grad).round() as i64,
            hess: (p.1 as f64 * self.hess).round() as i64,
        }
    }

    fn to_f64(&self, p: GradPairFixed) -> (f64, f64) {
        (p.grad as f64 / self.grad, p.hess as f64 / self.hess)
    }
}

fn fixture() -> (Vec<Bin>, usize, usize, Vec<u32>, Vec<GradPairFixed>) {
    let n_rows = 8;
    let n_feats = 3;
    let block: Vec<Bin> = vec![
        0, 1, 2, 3, 0, 1, 2, 3, // feat 0
        0, 0, 1, 1, 2, 2, 3, 3, // feat 1
        MISSING_BIN, 1, MISSING_BIN, 2, 0, 0, 3, 1, // feat 2
    ];
    let feat_offsets = vec![0, 4, 8, 12];
    let float: Vec<(f32, f32)> = (0..n_rows)
        .map(|i| ((i as f32) + 1.0, 0.5 * (i as f32) + 2.0))
        .collect();
    let q = Quantizer::new(&float);
    let gpair = float.iter().map(|&g| q.to_fixed(g)).collect();
    (block, n_rows, n_feats, feat_offsets, gpair)
}

fn reference(
    block: &[Bin],
    n_rows: usize,
    n_feats: usize,
    feat_offsets: &[u32],
    gpair: &[GradPairFixed],
    rows: &[RowId],
) -> Vec<GradPairFixed> {
    let mut out = zeros(*feat_offsets.last().unwrap() as usize);
    for &r in rows {
        for f in 0..n_feats {
            let b = block[f * n_rows + r as usize];
            if b == MISSING_BIN {
                continue;
            }
            let slot = feat_offsets[f] as usize + b as usize;
            out[slot] = out[slot].plus(gpair[r as usize]);
        }
    }
    out
}

#[test]
fn in_place_subtract_matches_three_way_form() {
    let mut parent = Histogram::zeros(64);
    let mut child = Histogram::zeros(64);
    for i in 0..64 {
        parent.bins[i] = GradPairFixed { grad: (i as i64) * 7 - 13, hess: i64::MAX - i as i64 };
        child.bins[i] = GradPairFixed { grad: -(i as i64) * 3, hess: i as i64 };
    }
    let mut three_way = Histogram::zeros(64);
    subtract(&parent, &child, &mut three_way);
    let mut moved = Histogram { bins: parent.bins.clone() };
    subtract_in_place(&mut moved, &child);
    assert_eq!(moved.bins, three_way.bins);
}

#[test]
fn all_rows_matches_reference() {
    let (block, n_rows, n_feats, offs, gpair) = fixture();
    let mut out = zeros(12);
    build(&block, n_rows, n_feats, &offs, &gpair, None, &mut out);
    let all: Vec<RowId> = (0..n_rows as RowId).collect();
    assert_eq!(out, reference(&block, n_rows, n_feats, &offs, &gpair, &all));
}

#[test]
fn row_subset_matches_reference() {
    let (block, n_rows, n_feats, offs, gpair) = fixture();
    let rows: Vec<RowId> = vec![1, 3, 4, 7];
    let mut out = zeros(12);
    build(&block, n_rows, n_feats, &offs, &gpair, Some(&rows), &mut out);
    assert_eq!(out, reference(&block, n_rows, n_feats, &offs, &gpair, &rows));
}

#[test]
fn none_and_full_row_list_agree() {
    let (block, n_rows, n_feats, offs, gpair) = fixture();
    let all: Vec<RowId> = (0..n_rows as RowId).collect();
    let mut a = zeros(12);
    let mut b = zeros(12);
    build(&block, n_rows, n_feats, &offs, &gpair, None, &mut a);
    build(&block, n_rows, n_feats, &offs, &gpair, Some(&all), &mut b);
    assert_eq!(a, b);
}

#[test]
fn row_order_does_not_change_the_result() {
    let (block, n_rows, n_feats, offs, gpair) = fixture();
    let ascending: Vec<RowId> = (0..n_rows as RowId).collect();
    let mut shuffled = vec![5u32, 0, 7, 2, 6, 1, 4, 3];
    let mut a = zeros(12);
    let mut b = zeros(12);
    build(&block, n_rows, n_feats, &offs, &gpair, Some(&ascending), &mut a);
    build(&block, n_rows, n_feats, &offs, &gpair, Some(&shuffled), &mut b);
    assert_eq!(a, b);
    shuffled.reverse();
    let mut c = zeros(12);
    build(&block, n_rows, n_feats, &offs, &gpair, Some(&shuffled), &mut c);
    assert_eq!(a, c);
    assert_eq!(node_sum(&gpair, Some(&ascending)), node_sum(&gpair, Some(&shuffled)));
}

#[test]
fn extreme_gradient_magnitudes_neither_overflow_nor_lose_the_signal() {
    for mult in [1e-6f32, 1.0, 1e6] {
        let n_rows = 1000;
        let float: Vec<(f32, f32)> = (0..n_rows)
            .map(|i| {
                (
                    ((i % 17) as f32 - 8.0) * mult,
                    ((i % 5) as f32 + 1.0) * mult,
                )
            })
            .collect();
        let q = Quantizer::new(&float);
        let fixed: Vec<GradPairFixed> = float.iter().map(|&g| q.to_fixed(g)).collect();
        let sum = node_sum(&fixed, None);
        let (grad, hess) = q.to_f64(sum);
        let want_grad: f64 = float.iter().map(|g| g.0 as f64).sum();
        let want_hess: f64 = float.iter().map(|g| g.1 as f64).sum();
        let tol = 1e-9 * want_hess.abs().max(1e-30 * mult as f64);
        assert!(
            (grad - want_grad).abs() <= tol.max(1e-9 * want_grad.abs()),
            "mult {mult}: grad {grad} vs {want_grad}"
        );
        assert!(
            (hess - want_hess).abs() <= tol.max(1e-9 * want_hess.abs()),
            "mult {mult}: hess {hess} vs {want_hess}"
        );
    }
}

#[test]
fn missing_rows_are_excluded_from_every_bin() {
    let (block, n_rows, n_feats, offs, gpair) = fixture();
    let mut out = zeros(12);
    build(&block, n_rows, n_feats, &offs, &gpair, None, &mut out);
    let feat2: i64 = out[8..12].iter().map(|g| g.grad).sum();
    let total: i64 = gpair.iter().map(|g| g.grad).sum();
    let missing: i64 = gpair[0].grad + gpair[2].grad;
    assert_eq!(feat2, total - missing);
    let feat0: i64 = out[0..4].iter().map(|g| g.grad).sum();
    assert_eq!(feat0, total);
}

#[test]
fn node_sum_parallel_branch_matches_serial_reference() {
    let n = (1usize << 16) + 1234;
    let gpair: Vec<GradPairFixed> = (0..n)
        .map(|i| {
            let sign = if i % 3 == 0 { -1 } else { 1 };
            GradPairFixed {
                grad: sign * ((i as i64 % 9973) << 20),
                hess: (i as i64 % 7919) << 18,
            }
        })
        .collect();
    let mut want = GradPairFixed::default();
    for &g in &gpair {
        want = want.plus(g);
    }
    assert_eq!(node_sum(&gpair, None), want);
    let rows: Vec<RowId> = (0..n as RowId).filter(|r| r % 2 == 0).collect();
    let mut want_rows = GradPairFixed::default();
    for &r in &rows {
        want_rows = want_rows.plus(gpair[r as usize]);
    }
    assert_eq!(node_sum(&gpair, Some(&rows)), want_rows);
}

#[test]
fn long_row_lists_are_added_up_in_parallel() {
    let n = (1usize << 17) + 77;
    let gpair: Vec<GradPairFixed> = (0..n)
        .map(|i| GradPairFixed { grad: i as i64 - 5, hess: 2 * i as i64 })
        .collect();
    let rows: Vec<RowId> = (0..n as RowId).filter(|r| r % 3 != 1).collect();
    assert!(rows.len() >= 65536);
    let want = rows
        .iter()
        .fold(GradPairFixed::zero(), |s, &r| s.plus(gpair[r as usize]));
    assert_eq!(node_sum(&gpair, Some(&rows)), want);
}

#[test]
fn node_sum_includes_missing_rows() {
    let (block, n_rows, n_feats, offs, gpair) = fixture();
    let mut out = zeros(12);
    build(&block, n_rows, n_feats, &offs, &gpair, None, &mut out);
    let sum = node_sum(&gpair, None);
    let binned: i64 = out[8..12].iter().map(|g| g.grad).sum();
    assert_eq!(sum.grad - binned, gpair[0].grad + gpair[2].grad);
}

#[test]
fn build_result_is_unchanged_without_the_clear_pass() {
    let (block, n_rows, n_feats, offs, gpair) = fixture();
    let mut got = zeros(12);
    build(&block, n_rows, n_feats, &offs, &gpair, None, &mut got);
    let mut want = zeros(12);
    for row in 0..n_rows {
        for f in 0..n_feats {
            let bin = block[f * n_rows + row];
            if bin == MISSING_BIN {
                continue;
            }
            let slot = offs[f] as usize + bin as usize;
            want[slot].grad += gpair[row].grad;
            want[slot].hess += gpair[row].hess;
        }
    }
    assert_eq!(got, want);
    assert!(got.iter().any(|g| g.grad != 0));
}

#[test]
fn siblings_subtract_to_parent() {
    let (block, n_rows, n_feats, offs, gpair) = fixture();
    let left: Vec<RowId> = vec![0, 2, 5, 6];
    let right: Vec<RowId> = vec![1, 3, 4, 7];
    let mut parent = Histogram::zeros(12);
    let mut lh = Histogram::zeros(12);
    let mut rh = Histogram::zeros(12);
    build(&block, n_rows, n_feats, &offs, &gpair, None, &mut parent.bins);
    build(&block, n_rows, n_feats, &offs, &gpair, Some(&left), &mut lh.bins);
    build(&block, n_rows, n_feats, &offs, &gpair, Some(&right), &mut rh.bins);
    let mut derived = Histogram::zeros(12);
    subtract(&parent, &lh, &mut derived);
    assert_eq!(derived.bins, rh.bins);
}

#[test]
fn build_all_nodes_matches_per_node_build() {
    let (block, n_rows, n_feats, offs, gpair) = fixture();
    let node_rows: Vec<Vec<RowId>> = vec![vec![0, 1, 2], vec![3, 4], vec![5, 6, 7]];
    let mut batched: Vec<Histogram> = (0..3).map(|_| Histogram::zeros(12)).collect();
    build_all_nodes(&block, n_rows, n_feats, &offs, &gpair, &node_rows, &mut batched);
    for (rows, got) in node_rows.iter().zip(&batched) {
        let mut want = zeros(12);
        build(&block, n_rows, n_feats, &offs, &gpair, Some(rows), &mut want);
        assert_eq!(got.bins, want);
    }
}

#[test]
fn the_tile_size_does_not_change_the_histogram() {
    let (block, n_rows, n_feats, offs, gpair) = fixture();
    let mut want = zeros(12);
    build(&block, n_rows, n_feats, &offs, &gpair, None, &mut want);
    for tile in [1usize, 3, 8, 100] {
        let mut got = zeros(12);
        build_tiled(&block, n_rows, n_feats, &offs, &gpair, None, tile, &mut got);
        assert_eq!(got, want, "tile {tile}");
    }
    assert!(tile_rows(None) > 0);
    assert_eq!(tile_rows(None), 4096);
    assert_eq!(tile_rows(Some("128")), 128);
    assert_eq!(tile_rows(Some("0")), 4096);
    assert_eq!(tile_rows(Some(" 7")), 4096);
}

#[test]
fn sums_wrap_around() {
    let a = GradPairFixed { grad: i64::MAX, hess: i64::MIN };
    let b = GradPairFixed { grad: 1, hess: -1 };
    assert_eq!(a.plus(b), GradPairFixed { grad: i64::MIN, hess: i64::MAX });
    assert_eq!(a.plus(b).minus(b), a);
}
