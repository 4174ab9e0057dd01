//! Finding input files.
use ferrisboost::source::glob::glob_match;
use ferrisboost::source::input::{
    expand_one, is_gzipped, projection_and_order, resolve, DirEntry, InputError, InputFormat,
    InputSpec, Lookup, ResolvedInput,
};
use ferrisboost::source::path::PathStyle;

const UNIX: PathStyle = PathStyle::Unix;

fn spec(spec: &str, place: &str, found: Lookup) -> InputSpec {
    InputSpec { spec: spec.to_string(), place: place.to_string(), found }
}

fn file(path: &str) -> InputSpec {
    spec(path, path, Lookup::File)
}

fn entry(path: &str) -> DirEntry {
    DirEntry { path: path.to_string(), is_file: true }
}

fn error(r: Result<ResolvedInput, InputError>) -> InputError {
    match r {
        Ok(_) => panic!("an error is wanted"),
        Err(e) => e,
    }
}

#[test]
fn glob_matches_the_usual_shapes() {
    assert!(glob_match("*.parquet", "a.parquet"));
    assert!(glob_match("part-*.csv", "part-001.csv"));
    assert!(glob_match("d?.csv", "d1.csv"));
    assert!(glob_match("*", "anything"));
    assert!(!glob_match("*.parquet", "a.csv"));
    assert!(!glob_match("d?.csv", "d12.csv"));
    assert!(glob_match("a*b", "ab"));
    assert!(glob_match("*a*b*", "xxayybzz"));
}

#[test]
fn format_is_recognised_including_csv_gz() {
    assert_eq!(InputFormat::of("x.parquet", UNIX), Some(InputFormat::Parquet));
    assert_eq!(InputFormat::of("x.pq", UNIX), Some(InputFormat::Parquet));
    assert_eq!(InputFormat::of("x.csv", UNIX), Some(InputFormat::Csv));
    assert_eq!(InputFormat::of("x.CSV.GZ", UNIX), Some(InputFormat::Csv));
    assert_eq!(InputFormat::of("x.txt", UNIX), None);
    assert!(is_gzipped("x.csv.gz", UNIX));
    assert!(!is_gzipped("x.csv", UNIX));
}

#[test]
fn missing_input_is_an_error_not_an_empty_dataset() {
    let path = "/nonexistent/nope.parquet";
    let err = error(resolve(&[spec(path, path, Lookup::Missing)], UNIX));
    assert!(err.message().contains("不存在"), "{}", err.message());
    assert!(matches!(err, InputError::Missing { .. }));
}

#[test]
fn empty_spec_list_is_rejected() {
    assert!(resolve(&[], UNIX).is_err());
    assert!(matches!(error(resolve(&[], UNIX)), InputError::NoInput));
}

#[test]
fn names_are_compared_in_any_case_and_only_in_the_last_part() {
    assert_eq!(InputFormat::of("dir.csv/data", UNIX), None);
    assert_eq!(InputFormat::of("/a/b.PQ", UNIX), Some(InputFormat::Parquet));
    assert_eq!(InputFormat::of("..", UNIX), None);
    assert_eq!(InputFormat::Parquet.label(), "parquet");
    assert_eq!(InputFormat::Csv.label(), "csv");
}

#[test]
fn a_directory_gives_its_data_files_in_order() {
    let found = Lookup::Directory(vec![
        entry("d/b.csv"),
        entry("d/notes.txt"),
        entry("d/a.csv"),
        DirEntry { path: "d/z.csv".to_string(), is_file: false },
    ]);
    let r = resolve(&[spec("d", "d", found)], UNIX).unwrap_or_else(|e| panic!("{}", e.message()));
    assert_eq!(r.paths, vec!["d/a.csv", "d/b.csv"]);
    assert_eq!(r.format, InputFormat::Csv);
}

#[test]
fn a_pattern_takes_the_names_that_fit() {
    let listing = || {
        Lookup::Directory(vec![
            entry("d/part-2.parquet"),
            entry("d/part-1.parquet"),
            entry("d/other.parquet"),
        ])
    };
    let r = expand_one(&spec("d/part-*.parquet", "d", listing()), UNIX)
        .unwrap_or_else(|e| panic!("{}", e.message()));
    assert_eq!(r.len(), 2);
    let r = resolve(&[spec("d/part-*.parquet", "d", listing())], UNIX)
        .unwrap_or_else(|e| panic!("{}", e.message()));
    assert_eq!(r.paths, vec!["d/part-1.parquet", "d/part-2.parquet"]);
}

#[test]
fn the_order_does_not_depend_on_the_listing() {
    let one = resolve(&[file("b.csv"), file("a.csv")], UNIX).unwrap_or_else(|_| panic!("files"));
    let two = resolve(&[file("a.csv"), file("b.csv")], UNIX).unwrap_or_else(|_| panic!("files"));
    assert_eq!(one.paths, two.paths);
    assert_eq!(one.paths, vec!["a.csv", "b.csv"]);
}

#[test]
fn a_file_named_twice_is_listed_once() {
    let twice = [file("d//b.csv"), file("a.csv"), file("d/b.csv"), file("a.csv")];
    let r = resolve(&twice, UNIX).unwrap_or_else(|_| panic!("files"));
    assert_eq!(r.paths, vec!["a.csv", "d//b.csv"]);
    assert_eq!(r.format, InputFormat::Csv);
}

#[test]
fn a_backslash_separates_parts_on_windows() {
    let listing = || {
        Lookup::Directory(vec![
            entry("data\\b.parquet"),
            entry("data\\a.parquet"),
            entry("data\\a.csv"),
        ])
    };
    let named = [spec("data\\*.parquet", "data", listing())];
    let r = resolve(&named, PathStyle::Windows).unwrap_or_else(|e| panic!("{}", e.message()));
    assert_eq!(r.paths, vec!["data\\a.parquet", "data\\b.parquet"]);
    // Elsewhere the whole text is a pattern for names in the current directory.
    let here = Lookup::Directory(vec![entry("./b.parquet"), entry("./a.parquet")]);
    let e = error(resolve(&[spec("data\\*.parquet", ".", here)], UNIX));
    assert!(matches!(e, InputError::NothingFound { .. }), "{}", e.message());
    let e = error(resolve(&[spec("d*\\a.csv", "d*", Lookup::Missing)], PathStyle::Windows));
    assert!(matches!(e, InputError::WildcardInDirectory { .. }), "{}", e.message());
    assert_eq!(InputFormat::of("d.csv\\", PathStyle::Windows), Some(InputFormat::Csv));
    assert_eq!(InputFormat::of("d.csv\\", UNIX), None);
    assert_eq!(InputFormat::of("c:x.csv", PathStyle::Windows), Some(InputFormat::Csv));
    assert!(is_gzipped("C:\\d\\x.csv.gz", PathStyle::Windows));
    let drives = [file("D:\\a.csv"), file("c:/b.csv"), file("C:\\b.csv"), file("c:a.csv")];
    let r = resolve(&drives, PathStyle::Windows).unwrap_or_else(|e| panic!("{}", e.message()));
    assert_eq!(r.paths, vec!["c:/b.csv", "c:a.csv", "D:\\a.csv"]);
}

#[test]
fn a_share_leads_a_path_on_windows() {
    let windows = PathStyle::Windows;
    // The names of a server and a share are no file name.
    assert_eq!(InputFormat::of("\\\\server\\data.csv", windows), None);
    assert_eq!(InputFormat::of("\\\\server\\data.csv\\", windows), None);
    assert_eq!(InputFormat::of("\\\\server\\share\\x.csv", windows), Some(InputFormat::Csv));
    assert_eq!(InputFormat::of("//server/share/./x.csv", windows), Some(InputFormat::Csv));
    // One separator or three lead no share.
    assert_eq!(InputFormat::of("\\server\\data.csv", windows), Some(InputFormat::Csv));
    assert_eq!(InputFormat::of("\\\\\\server\\data.csv", windows), Some(InputFormat::Csv));
    assert_eq!(InputFormat::of("//server/data.csv", UNIX), Some(InputFormat::Csv));
    let named = [
        file("C:\\a.csv"),
        file("\\\\b\\x\\a.csv"),
        file("\\\\a\\y\\a.csv"),
        file("//a/x/b.csv"),
        file("\\\\a\\x\\b.csv"),
    ];
    let r = resolve(&named, windows).unwrap_or_else(|e| panic!("{}", e.message()));
    assert_eq!(r.paths, vec!["//a/x/b.csv", "\\\\a\\y\\a.csv", "\\\\b\\x\\a.csv", "C:\\a.csv"]);
    let e = error(resolve(&[spec("\\\\s*\\x\\a.csv", "", Lookup::Missing)], windows));
    assert!(matches!(e, InputError::WildcardInDirectory { .. }), "{}", e.message());
}

#[test]
fn every_refusal_has_its_error() {
    let e = error(resolve(&[file("a.csv"), file("b.parquet")], UNIX));
    assert!(matches!(
        e,
        InputError::MixedFormats { first: InputFormat::Csv, other: InputFormat::Parquet }
    ));
    assert_eq!(e.message(), "一次训练不能混用不同格式:同时出现了 csv 和 parquet");

    let e = error(resolve(&[file("a.txt")], UNIX));
    assert!(matches!(e, InputError::UnknownFormat { .. }));
    assert!(e.message().contains("a.txt"));

    let e = error(resolve(&[spec("d*/a.csv", "d*", Lookup::Missing)], UNIX));
    assert!(matches!(e, InputError::WildcardInDirectory { .. }), "{}", e.message());

    let e = error(resolve(&[spec("d/*.csv", "d", Lookup::Missing)], UNIX));
    assert!(matches!(e, InputError::DirectoryMissing { .. }), "{}", e.message());

    let e = error(resolve(&[spec("d/*.csv", "d", Lookup::Directory(vec![]))], UNIX));
    assert!(matches!(e, InputError::NothingFound { .. }), "{}", e.message());
}

#[test]
fn what_was_named_is_quoted() {
    let named = "d/\"x\\*.csv";
    let e = error(resolve(&[spec(named, "d", Lookup::Directory(vec![]))], UNIX));
    assert!(matches!(e, InputError::NothingFound { .. }));
    assert_eq!(
        e.message(),
        format!("{named:?} 没有匹配到任何 .parquet / .csv / .csv.gz 文件")
    );
    assert!(e.message().starts_with("\"d/\\\"x\\\\*.csv\""));
}

#[test]
fn reordering_gives_the_wanted_columns() {
    let wanted = [5usize, 1, 3, 1];
    let (mask, order) = projection_and_order(&wanted);
    assert_eq!(mask, vec![1, 3, 5]);
    let got: Vec<usize> = order.iter().map(|&i| mask[i]).collect();
    assert_eq!(got, wanted);
}
