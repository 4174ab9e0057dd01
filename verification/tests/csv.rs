//! CSV text: records, chunks, tables and data sets.
use ferrisboost::columns::BinCuts;
use ferrisboost::float32::F32;
use ferrisboost::sketch::summary::RankMath;
use ferrisboost::source::arrow_source::{Batch, CutsFailure};
use ferrisboost::source::csv_open::{
    bind_csv, csv_schema, open, open_many, open_many_with_header,
    open_many_with_header_and_nthread, open_with_cuts, peek_n_features, BindError, CsvOpenError, CsvSchemaError, Dataset, OpenError, PeekError,
    Readers,
};
use ferrisboost::source::csv_source::{
    chunk_records, is_blank, parse_batch_size, parser_threads, record_end, ChunkDrain, ChunkEvent,
    ChunkStep, RecordReader,
};
use ferrisboost::source::csv_table::{csv_fields, ordered_batch, read_csv, ColumnKind, CsvError};
use ferrisboost::source::dense::{copy_cuts, DenseSource};
use ferrisboost::source::opening::{BuildError, DatasetBuilder, Pass};
use ferrisboost::source::schema::{positional_label_name, LabelsError, SchemaError};
use ferrisboost::source::table::SourceError;
use ferrisboost::types::MISSING_BIN;

fn f(x: f32) -> F32 {
    F32::from_bits(x.to_bits())
}

fn v(x: F32) -> f32 {
    f32::from_bits(x.to_bits())
}

fn floats(xs: &[f32]) -> Vec<F32> {
    xs.iter().map(|&x| f(x)).collect()
}

fn math() -> RankMath<
    impl Fn(F32, F32) -> F32 + Sync,
    impl Fn(F32, F32, F32, usize, usize) -> bool + Sync,
    impl Fn(F32, F32) -> F32 + Sync,
> {
    RankMath {
        plus: |a: F32, b: F32| f(v(a) + v(b)),
        below: |rmin: F32, rmax: F32, total: F32, k: usize, n: usize| {
            0.5 * (v(rmin) + v(rmax)) < v(total) * (k as f32) / (n as f32)
        },
        half: |a: F32, b: F32| f(v(a) + (v(b) - v(a)) * 0.5),
    }
}

const BODY: &str = "f0,target,f1,f2\n\
                    1.0,0,10.0,7\n\
                    2.0,1,,8\n\
                    3.0,0,30.0,9\n\
                    4.0,1,40.0,1\n\
                    5.0,1,50.0,2\n\
                    6.0,0,,3\n";

fn open_with(body: &str, label: &str, cuts: Option<BinCuts>, cols: usize, header: bool) -> Result<Dataset, CsvOpenError> {
    open_many_with_header(&[body.as_bytes().to_vec()], label, cuts, 16, cols, header, 8, &math())
}

fn opened(body: &str, label: &str, cols: usize) -> Dataset {
    match open(body.as_bytes().to_vec(), label, 16, cols, 8, &math()) {
        Ok(d) => d,
        Err(_) => panic!("data set"),
    }
}

#[test]
fn csv_matches_dense_bin_for_bin() {
    let ds = opened(BODY, "target", 2);
    assert_eq!(ds.source.n_rows(), 6);
    assert_eq!(ds.source.n_features(), 3);
    assert_eq!(ds.feature_names, vec!["f0", "f1", "f2"]);
    assert_eq!(ds.labels, floats(&[0.0, 1.0, 0.0, 1.0, 1.0, 0.0]));
    let n = f32::NAN;
    let row_major = floats(&[
        1.0, 10.0, 7.0, 2.0, n, 8.0, 3.0, 30.0, 9.0, 4.0, 40.0, 1.0, 5.0, 50.0, 2.0, 6.0, n, 3.0,
    ]);
    let dense = DenseSource::from_row_major(&row_major, 6, 3, 16, 2, &math())
        .unwrap_or_else(|| panic!("source"));
    for row in 0..6 {
        for k in 0..3u32 {
            assert_eq!(ds.source.bin_at(row, k), dense.bin_at(row, k), "row {row} feature {k}");
        }
    }
}

#[test]
fn empty_fields_are_missing_not_zero() {
    let ds = opened(BODY, "target", 3);
    assert_eq!(ds.source.bin_at(1, 1), MISSING_BIN);
    assert_eq!(ds.source.bin_at(5, 1), MISSING_BIN);
    for row in [0usize, 2, 3, 4] {
        assert_ne!(ds.source.bin_at(row, 1), MISSING_BIN);
    }
}

/// What is said of a text that is refused.
fn refusal(body: &str, label: &str) -> String {
    match open_with(body, label, None, 2, true) {
        Err(CsvOpenError::Schema(CsvSchemaError::Bind { why, fields })) => why
            .message(&fields, label, true, &["a.csv".to_string()])
            .unwrap_or_else(|| panic!("no words for {why:?}")),
        _ => panic!("not refused"),
    }
}

#[test]
fn text_columns_are_rejected_by_name() {
    let body = "f0,target,city\n1.0,0,beijing\n2.0,1,shanghai\n";
    let msg = refusal(body, "target");
    assert!(msg.contains("city"), "报错要点名是哪一列:{msg}");
    assert!(msg.contains("只支持数值列"), "{msg}");
    assert_eq!(
        msg,
        "列 \"city\" 推断成了 Utf8,只支持数值列。类别特征要先在上游编码成数值;\
         如果它其实是数字,检查一下是不是有非法字符或者千分位逗号"
    );
    let r = open_with(body, "target", None, 2, true);
    assert!(matches!(
        r,
        Err(CsvOpenError::Schema(CsvSchemaError::Bind {
            why: BindError::File { file: 0, error: SchemaError::NotNumeric { column: 2 } },
            ..
        }))
    ));
    let dated = refusal("y,day\n1,2020-01-02\n0,2020-01-03\n", "y");
    assert!(dated.starts_with("列 \"day\" 推断成了 Date32,"), "{dated}");
    let empty = refusal("y,gap\n1,\n0,\n", "y");
    assert!(empty.starts_with("列 \"gap\" 推断成了 Null,"), "{empty}");
    let timed = refusal("y,at\n1,2020-01-02T03:04:05\n", "y");
    assert!(timed.starts_with("列 \"at\" 推断成了 Timestamp(Second, None),"), "{timed}");
    let flag = refusal("y,on\n1,true\n0,false\n", "y");
    assert!(flag.starts_with("列 \"on\" 推断成了 Boolean,"), "{flag}");
}

#[test]
fn missing_label_column_lists_what_is_there() {
    let msg = refusal(BODY, "nope");
    assert!(msg.contains("f0"), "{msg}");
    assert_eq!(msg, "文件里没有列 \"nope\",只有 [\"f0\", \"target\", \"f1\", \"f2\"]");
    let r = open_with(BODY, "nope", None, 2, true);
    assert!(matches!(
        r,
        Err(CsvOpenError::Schema(CsvSchemaError::Bind {
            why: BindError::File { file: 0, error: SchemaError::NoLabel },
            ..
        }))
    ));
    let fields = csv_fields(BODY.as_bytes(), true).unwrap_or_else(|e| panic!("{e}"));
    let names: Vec<&str> = fields.iter().map(|c| c.0.as_str()).collect();
    assert_eq!(names, vec!["f0", "target", "f1", "f2"]);
}

#[test]
fn files_that_do_not_fit_are_told_by_name() {
    let fields = |t: &str| csv_fields(t.as_bytes(), true).unwrap_or_else(|e| panic!("{e}"));
    let paths = ["a.csv".to_string(), "b.csv".to_string()];
    let told = |files: &[ferrisboost::source::csv_open::Fields], by_name: bool| {
        bind_csv(files, "y", by_name)
            .err()
            .and_then(|e| e.message(files, "y", by_name, &paths))
    };
    let files = [fields("a,y,b\n1,2,3\n"), fields("y,a,c\n1,2,3\n")];
    assert_eq!(
        told(&files, true),
        Some("多文件 schema 不一致:b.csv 里没有列 \"b\"".to_string())
    );
    let files = [fields("a,y,b\n1,2,3\n"), fields("y,a\n1,2\n")];
    assert_eq!(
        told(&files, true),
        Some("多文件 schema 不一致:a.csv 有 2 个特征列,b.csv 有 1 个".to_string())
    );
    assert_eq!(
        told(&files, false),
        Some("多文件位置 schema 不一致:a.csv 有 2 个特征列,b.csv 有 1 个".to_string())
    );
    assert_eq!(
        BindError::NoFile.message(&[], "y", true, &[]),
        Some("没有输入文件".to_string())
    );
    let names = ["f0".to_string(), "f1".to_string()];
    assert_eq!(
        SchemaError::MissingFeature { file: 1, feature: 1 }.align_message(&names, &paths),
        Some("多文件 schema 不一致:b.csv 里没有特征列 \"f1\"".to_string())
    );
    assert_eq!(
        SchemaError::FeatureCount { file: 1, got: 3, expected: 2 }.align_message(&names, &paths),
        Some("多文件 schema 不一致:a.csv 有 2 个特征列,b.csv 有 3 个".to_string())
    );
}

#[test]
fn csv_source_valid_set_reuses_training_cuts() {
    let train = opened(BODY, "target", 2);
    let cuts = copy_cuts(train.source.cuts());
    let valid = match open_with_cuts(BODY.as_bytes().to_vec(), "target", cuts, 2, 8, &math()) {
        Ok(d) => d,
        Err(_) => panic!("data set"),
    };
    for k in 0..3u32 {
        assert_eq!(valid.source.cuts().cuts_for(k), train.source.cuts().cuts_for(k));
    }
}

#[test]
fn headless_csv_uses_a_positional_label() {
    let body = "1.0,10.0,0,7\n2.0,20.0,1,8\n3.0,30.0,0,9\n4.0,40.0,1,1\n";
    let fields = csv_fields(body.as_bytes(), false).unwrap_or_else(|e| panic!("{e}"));
    let names: Vec<String> = fields.iter().map(|c| c.0.clone()).collect();
    let label = positional_label_name(&names, 2).unwrap_or_else(|e| panic!("{e:?}"));
    let ds = match open_with(body, &label, None, 2, false) {
        Ok(d) => d,
        Err(_) => panic!("data set"),
    };
    assert_eq!(ds.source.n_rows(), 4);
    assert_eq!(ds.source.n_features(), 3);
    assert_eq!(ds.labels, floats(&[0.0, 1.0, 0.0, 1.0]));
    assert!(ds.feature_names.is_empty());
    assert!(positional_label_name(&names, 4).is_err());
}

#[test]
fn columns_tell_what_they_hold() {
    let text = "a,b,c,d\n1,1.5,x,true\n2,,y,false\n";
    let fields = csv_fields(text.as_bytes(), true).unwrap_or_else(|e| panic!("{e}"));
    let kinds: Vec<ColumnKind> = fields.iter().map(|c| c.1).collect();
    assert_eq!(
        kinds,
        vec![ColumnKind::Int64, ColumnKind::Float64, ColumnKind::Utf8, ColumnKind::Boolean]
    );
    assert!(ColumnKind::Int64.is_numeric());
    assert!(!ColumnKind::Utf8.is_numeric());
}

#[test]
fn columns_come_in_the_wanted_order() {
    let text = "a,b,c\n1,10.5,7\n2,,8\n";
    let kinds = [ColumnKind::Int64, ColumnKind::Float64, ColumnKind::Int64];
    let batches = match read_csv(text.as_bytes(), true, true, &kinds, &[2, 0, 1]) {
        Ok(b) => b,
        Err(_) => panic!("batches"),
    };
    assert_eq!(batches.len(), 1);
    assert_eq!(batches[0].n_rows, 2);
    assert_eq!(batches[0].columns[0], floats(&[7.0, 8.0]));
    assert_eq!(batches[0].columns[1], floats(&[1.0, 2.0]));
    assert_eq!(v(batches[0].columns[2][0]), 10.5);
    assert!(batches[0].columns[2][1].is_nan());
}

#[test]
fn values_are_rounded_to_single_precision() {
    let text = "16777217,0.1\n-16777219,3.5e38\n";
    let kinds = [ColumnKind::Int64, ColumnKind::Float64];
    let batches = match read_csv(text.as_bytes(), false, true, &kinds, &[0, 1]) {
        Ok(b) => b,
        Err(_) => panic!("batches"),
    };
    assert_eq!(batches[0].columns[0], floats(&[16777217i64 as f32, -16777219i64 as f32]));
    assert_eq!(batches[0].columns[1], floats(&[0.1f64 as f32, f32::INFINITY]));
}

#[test]
fn long_texts_are_parsed_in_several_batches() {
    let mut text = String::from("a,b\n");
    for i in 0..20_000 {
        text.push_str(&format!("{i},{}\n", i % 7));
    }
    let kinds = [ColumnKind::Int64, ColumnKind::Int64];
    let batches = match read_csv(text.as_bytes(), true, true, &kinds, &[1, 0]) {
        Ok(b) => b,
        Err(_) => panic!("batches"),
    };
    assert!(batches.len() > 1);
    let a: Vec<f32> = batches.iter().flat_map(|b| b.columns[1].iter().map(|&x| v(x))).collect();
    assert_eq!(a, (0..20_000).map(|i| i as f32).collect::<Vec<_>>());
}

#[test]
fn unreadable_texts_are_refused() {
    let kinds = [ColumnKind::Int64, ColumnKind::Utf8];
    assert!(matches!(read_csv(b"", true, true, &kinds, &[0]), Err(CsvError::NoHeader)));
    assert!(matches!(
        read_csv(b"1,2\n", false, true, &kinds, &[0, 1]),
        Err(CsvError::NotNumeric { column: 1 })
    ));
    assert!(matches!(
        read_csv(b"1,2\n", false, true, &kinds, &[5]),
        Err(CsvError::NotNumeric { column: 5 })
    ));
    assert!(matches!(read_csv(b"x,2\n", false, true, &kinds, &[0]), Err(CsvError::Text(_))));
    assert!(matches!(read_csv(b"1,2,3\n", false, true, &kinds, &[0]), Err(CsvError::Text(_))));
}

#[test]
fn empty_fields_become_missing_values() {
    let table = vec![vec![Some(1.5f32.to_bits()), None], vec![Some(2.0f32.to_bits()), Some(0)]];
    let b = ordered_batch(&table, &[1, 0]);
    assert_eq!(b.n_rows, 2);
    assert_eq!(b.columns[0], floats(&[2.0, 0.0]));
    assert_eq!(v(b.columns[1][0]), 1.5);
    assert_eq!(b.columns[1][1], f(f32::NAN));
}

#[test]
fn every_nan_in_a_text_is_a_missing_value() {
    let kinds = [ColumnKind::Float64];
    let batches = match read_csv(b"NaN\nnan\n-NaN\n1.5\n", false, true, &kinds, &[0]) {
        Ok(b) => b,
        Err(_) => panic!("refused"),
    };
    let values: Vec<F32> = batches.into_iter().flat_map(|b| b.columns[0].clone()).collect();
    assert_eq!(values.len(), 4);
    for x in &values[..3] {
        assert_eq!(*x, F32::from_bits(0x7fc0_0000));
    }
    assert_eq!(values[3], f(1.5));
}

#[test]
fn files_are_bound_by_name() {
    let one = "a,y,b\n1,0,10\n2,1,20\n".as_bytes().to_vec();
    let two = "b,a,y\n30,3,1\n".as_bytes().to_vec();
    let ds = match open_many(&[one, two], "y", None, 16, 2, 8, &math()) {
        Ok(d) => d,
        Err(_) => panic!("data set"),
    };
    assert_eq!(ds.feature_names, vec!["a", "b"]);
    assert_eq!(ds.labels, floats(&[0.0, 1.0, 1.0]));
    let dense = DenseSource::from_row_major(
        &floats(&[1.0, 10.0, 2.0, 20.0, 3.0, 30.0]), 3, 2, 16, 2, &math(),
    )
    .unwrap_or_else(|| panic!("source"));
    for row in 0..3 {
        for k in 0..2u32 {
            assert_eq!(ds.source.bin_at(row, k), dense.bin_at(row, k));
        }
    }
}

#[test]
fn the_first_file_that_does_not_fit_is_told() {
    let file = |names: &[&str]| -> Vec<(String, ColumnKind)> {
        names.iter().map(|n| (n.to_string(), ColumnKind::Int64)).collect()
    };
    let r = bind_csv(&[file(&["a", "y"]), file(&["a", "b", "y"])], "y", true);
    assert!(matches!(
        r,
        Err(BindError::File {
            file: 1,
            error: SchemaError::FeatureCount { file: 1, got: 2, expected: 1 },
        })
    ));
    let r = bind_csv(&[file(&["a", "y"]), file(&["b", "y"])], "y", true);
    assert!(matches!(
        r,
        Err(BindError::File { file: 1, error: SchemaError::MissingFeature { file: 1, feature: 0 } })
    ));
    assert!(bind_csv(&[file(&["a", "y"]), file(&["b", "y"])], "y", false).is_ok());
    assert!(matches!(bind_csv(&[], "y", true), Err(BindError::NoFile)));
    let r = bind_csv(&[file(&["y"])], "y", true);
    assert!(matches!(r, Err(BindError::File { file: 0, error: SchemaError::OnlyLabel })));
}

#[test]
fn labels_must_be_there() {
    let r = open_with("a,y\n1,0\n2,\n", "y", None, 1, true);
    assert!(matches!(r, Err(CsvOpenError::Open(OpenError::Labels(LabelsError::Missing)))));
    let r = open_with("a,y\n1,x\n", "y", None, 1, true);
    assert!(matches!(r, Err(CsvOpenError::Open(OpenError::LabelText(_)))));
    let cuts = copy_cuts(opened(BODY, "target", 2).source.cuts());
    let r = open_with("a,y\n1,0\n", "y", Some(cuts), 1, true);
    assert!(matches!(r, Err(CsvOpenError::Open(OpenError::Source(_)))));
    let r = open_with("a,y\n", "y", None, 1, true);
    assert!(r.is_err());
}

#[test]
fn a_schema_tells_the_features() {
    let s = match csv_schema(&[BODY.as_bytes().to_vec()], "target", true) {
        Ok(s) => s,
        Err(_) => panic!("schema"),
    };
    assert_eq!(s.n_features(), 3);
    assert_eq!(s.plan.features[0], vec![0, 2, 3]);
    assert_eq!(s.labels[0], vec![1]);
    assert!(matches!(
        csv_schema(&[], "y", true),
        Err(CsvSchemaError::Bind { why: BindError::NoFile, .. })
    ));
}

#[test]
fn features_are_counted_without_the_label() {
    assert!(matches!(peek_n_features(BODY.as_bytes(), "target", true), Ok(3)));
    assert!(matches!(
        peek_n_features(BODY.as_bytes(), "nope", true),
        Err(PeekError::Schema(SchemaError::NoLabel))
    ));
    assert!(matches!(
        peek_n_features(b"y\n1\n", "y", true),
        Err(PeekError::Schema(SchemaError::OnlyLabel))
    ));
}

#[test]
fn records_end_outside_quotes() {
    let text = b"a,\"x\ny\"\"\n\",b\nc\n";
    let end = record_end(text, 0);
    assert_eq!(&text[..end], b"a,\"x\ny\"\"\n\",b\n");
    let mut r = RecordReader::new();
    assert!(!r.push_line(b"a,\"x\n"));
    assert!(!r.push_line(b"y\"\"\n"));
    assert!(r.push_line(b"\",b\n"));
    assert_eq!(r.record, text[..end].to_vec());
}

#[test]
fn chunks_are_the_text() {
    let text = b"h1,h2\n1,2\n3,4\n\"5\n\",6\n7,8";
    let chunks = chunk_records(text, true, 5).unwrap_or_else(|| panic!("chunks"));
    let joined: Vec<u8> = chunks.iter().flat_map(|c| text[c.start..c.end].to_vec()).collect();
    assert_eq!(joined, text[6..].to_vec());
    assert_eq!(chunks.iter().map(|c| c.rows).sum::<usize>(), 4);
    assert_eq!(chunks[0].rows, 2);
    assert!(chunk_records(b"", true, 5).is_none());
    assert!(chunk_records(b"\r\n\n", true, 5).is_none());
    assert!(is_blank(b"\r\n"));
    assert!(!is_blank(b" \n"));
    assert_eq!(chunk_records(b"", false, 5).map(|c| c.len()), Some(0));
}

#[test]
fn the_header_is_the_first_record_that_is_not_blank() {
    let text = b"\n\r\nh1,h2\n1,2\n\n3,4\n";
    let chunks = chunk_records(text, true, 100).unwrap_or_else(|| panic!("chunks"));
    assert_eq!(chunks.len(), 1);
    assert_eq!((chunks[0].start, chunks[0].end), (9, text.len()));
    let chunks = chunk_records(text, false, 100).unwrap_or_else(|| panic!("chunks"));
    assert_eq!(chunks[0].start, 0);
    let kinds = [ColumnKind::Int64, ColumnKind::Int64];
    for chunked in [true, false] {
        let batches = match read_csv(text, true, chunked, &kinds, &[1, 0]) {
            Ok(b) => b,
            Err(_) => panic!("batches"),
        };
        assert_eq!(batches.len(), 1);
        assert_eq!(batches[0].columns[0], floats(&[2.0, 4.0]));
        assert_eq!(batches[0].columns[1], floats(&[1.0, 3.0]));
    }
}

#[test]
fn texts_with_blank_first_lines_open_with_any_number_of_threads() {
    let one = b"\n\na,y\n1,0\n2,1\n".to_vec();
    let two = b"\r\ny,a\n1,3\n".to_vec();
    for nthread in [0usize, 1, 2, 5] {
        let run = |texts: &[Vec<u8>]| match open_many_with_header_and_nthread(
            texts, "y", None, 16, 2, true, nthread, 8, &math(),
        ) {
            Ok(d) => d,
            Err(_) => panic!("{nthread} threads"),
        };
        let d = run(&[one.clone()]);
        assert_eq!(d.labels, floats(&[0.0, 1.0]));
        assert_eq!(d.feature_names, vec!["a"]);
        let d = run(&[one.clone(), two.clone()]);
        assert_eq!(d.labels, floats(&[0.0, 1.0, 1.0]));
        assert_eq!(d.source.n_rows(), 3);
        assert!(d.source.bin_at(0, 0) < d.source.bin_at(2, 0));
    }
}

#[test]
fn a_quote_inside_a_name_takes_no_record_where_a_text_is_read_as_one() {
    let text = b"a\"b,c\n1,2\n3,4\n";
    let kinds = [ColumnKind::Int64, ColumnKind::Int64];
    let batches = match read_csv(text, true, false, &kinds, &[0]) {
        Ok(b) => b,
        Err(_) => panic!("batches"),
    };
    assert_eq!(batches[0].columns[0], floats(&[1.0, 3.0]));
}

#[test]
fn a_text_without_records_is_no_failure_where_it_is_read_as_one() {
    let kinds = [ColumnKind::Int64];
    assert!(matches!(read_csv(b"", true, false, &kinds, &[0]), Ok(b) if b.is_empty()));
    assert!(matches!(read_csv(b"x\n", true, false, &kinds, &[0]), Ok(b) if b.is_empty()));
    assert!(matches!(read_csv(b"x\n", false, false, &kinds, &[0]), Err(CsvError::Text(_))));
}

#[test]
fn a_single_text_is_read_in_chunks_where_there_are_threads() {
    assert_eq!(Readers::new(7, 1), Readers { features: 4, labels: 7 });
    assert_eq!(Readers::new(0, 8), Readers { features: 4, labels: 0 });
    assert_eq!(Readers::new(1, 8), Readers { features: 1, labels: 1 });
}

fn batch(columns: &[&[f32]]) -> Batch {
    Batch { columns: columns.iter().map(|c| floats(c)).collect(), n_rows: columns[0].len() }
}

#[test]
fn passes_over_batches_make_a_data_set() {
    let features = [batch(&[&[1.0, 2.0, 3.0], &[10.0, f32::NAN, 30.0]]), batch(&[&[4.0], &[40.0]])];
    let labels = [batch(&[&[0.0, 1.0]]), batch(&[&[0.0, 1.0]])];
    let math = math();
    let mut b = DatasetBuilder::new(None, 16, 2, &math);
    assert_eq!(b.pass(), Pass::Cuts);
    while b.pass() != Pass::Labels {
        for f in &features {
            b = b.take(f, &math).unwrap_or_else(|e| panic!("{e:?}"));
        }
        b = b.pass_done(&math).unwrap_or_else(|e| panic!("{e:?}"));
    }
    for l in &labels {
        b = b.take(l, &math).unwrap_or_else(|e| panic!("{e:?}"));
    }
    let d = b.finish(vec!["a".to_string(), "b".to_string()], &math).unwrap_or_else(|e| panic!("{e:?}"));
    assert_eq!(d.labels, floats(&[0.0, 1.0, 0.0, 1.0]));
    let rows = floats(&[1.0, 10.0, 2.0, f32::NAN, 3.0, 30.0, 4.0, 40.0]);
    let dense = DenseSource::from_row_major(&rows, 4, 2, 16, 2, &math)
        .unwrap_or_else(|| panic!("source"));
    for row in 0..4 {
        for k in 0..2u32 {
            assert_eq!(d.source.bin_at(row, k), dense.bin_at(row, k));
        }
    }
}

#[test]
fn passes_say_what_does_not_fit() {
    let math = math();
    let two = batch(&[&[1.0], &[2.0]]);
    let one = batch(&[&[1.0]]);
    let new = || DatasetBuilder::new(None, 16, 2, &math);
    assert_eq!(new().pass_done(&math).err(), Some(CutsFailure::NoBatch));
    let b = new().take(&two, &math).unwrap_or_else(|e| panic!("{e:?}"));
    assert_eq!(
        b.take(&one, &math).err(),
        Some(BuildError::Cuts(CutsFailure::ColumnCount { got: 1, expected: 2 }))
    );
    let table = |f: &Batch| {
        new()
            .take(f, &math)
            .unwrap_or_else(|e| panic!("{e:?}"))
            .pass_done(&math)
            .unwrap_or_else(|e| panic!("{e:?}"))
    };
    assert_eq!(
        table(&two).take(&one, &math).err(),
        Some(BuildError::Source(SourceError::ColumnCount { got: 1, expected: 2 }))
    );
    let b = table(&two).take(&two, &math).unwrap_or_else(|e| panic!("{e:?}"));
    let b = b.pass_done(&math).unwrap_or_else(|e| panic!("{e:?}"));
    assert_eq!(
        b.finish(Vec::new(), &math).err(),
        Some(LabelsError::Count { labels: 0, rows: 1 })
    );
    let wide = Batch { columns: Vec::new(), n_rows: usize::MAX };
    let b = table(&wide).take(&wide, &math).unwrap_or_else(|e| panic!("{e:?}"));
    assert_eq!(b.take(&wide, &math).err(), Some(BuildError::TooManyRows));
}

#[test]
fn parsers_leave_a_thread_to_the_reader() {
    assert_eq!(parser_threads(0), 1);
    assert_eq!(parser_threads(1), 1);
    assert_eq!(parser_threads(8), 7);
    assert_eq!(parse_batch_size(0), 1);
    assert_eq!(parse_batch_size(12), 12);
    assert_eq!(parse_batch_size(1_000_000), 8192);
}

#[test]
fn chunks_are_drained_in_order() {
    let mut d = ChunkDrain { ready: 0 };
    assert_eq!(d.next(), ChunkStep::Wait);
    assert_eq!(d.take(ChunkEvent::Parsed(2)), ChunkStep::Wait);
    assert_eq!(d.next(), ChunkStep::Yield);
    assert_eq!(d.next(), ChunkStep::Yield);
    assert_eq!(d.next(), ChunkStep::Wait);
    assert_eq!(d.take(ChunkEvent::ParseFailed), ChunkStep::Fail);
    assert_eq!(d.take(ChunkEvent::Done), ChunkStep::End);
}

#[test]
fn unfit_labels_are_told_in_words() {
    assert_eq!(
        LabelsError::Missing.message("y"),
        "标签列 \"y\" 里有缺失值。缺失的标签得在上游处理掉 —— 填 0 会被当成一个真实标签学进去"
    );
    assert_eq!(
        LabelsError::Count { labels: 3, rows: 4 }.message("y"),
        "标签有 3 行,特征有 4 行"
    );
}
