# ferrisboost

Gradient-boosted trees on histograms: the parts between the data and the split search, with
their behaviour stated as contracts and proved by Verus.

## Layout

`src/` is the library.

| module | what it holds |
| --- | --- |
| `float32` | single-precision numbers as bit patterns, and how they compare |
| `columns` | column blocks, bin boundaries, how features are cut into blocks |
| `sketch` | weighted quantile sketches and the boundaries that come out of them |
| `hist` | fixed-point gradient histograms, node sums, subtraction |
| `tree`, `inference` | trees, compact and blocked models, predictions |
| `colsample` | the features that a tree may use |
| `gpu_mem_plan` | how wide blocks may be on a device, and what stays resident |
| `backend::cuda` | what is launched on a device, where it goes and what it needs |
| `source` | files, CSV text, batches, tables, quantized caches |
| `job` | what a training or prediction job decides before, between and after its work |
| `callback`, `metrics`, `report` | rounds, their metrics, texts about plans |

`tests/` runs the library on concrete values. `app/` is ordinary Rust around it: files, threads,
devices, floating-point arithmetic and the Python module.

## Reading the contracts

* A number is an `F32`, its bit pattern. Arithmetic on numbers comes in as a closure, and a
  contract says in which order and on which operands the closure is called. What is proved holds
  of arithmetic that has one result for each pair of operands, up to which NaN it is. A NaN that
  comes out is settled to one bit pattern, so results are equal bit for bit.
* Gradients are integers. Their sums are exact modulo 2^64, so no contract speaks of an order.
* A proof function whose name starts with `law_` states a property that spans functions.
* A function marked `external_body` is believed: it calls another crate, and its comment says
  which function and what is claimed of it. There are few, in `parallel`, `text`,
  `source::parquet_source` and `source::csv_table`.
