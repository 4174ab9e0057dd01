//! From what a caller names to a list of files of one format, in a fixed order.
//!
//! A caller names a file, a directory, a pattern with `*` or `?` in its last part, or several of
//! these. What the file system holds at those places comes in as a [`Lookup`]; which files that
//! makes is decided here. The order is fixed, so that the same data gives the same rows on every
//! machine. No file at all is an error, and so is a mix of formats.
use vstd::prelude::*;
use vstd::string::*;

use super::glob::fits_chars;
use super::path::{name_of, path_parts, place_paths, PathPart, PathStyle, Place};
use crate::text::{ends_with_lower, has_char, quoted, quoted_text, to_chars};

verus! {

/// A format of input files. A compressed CSV file is a CSV file.
#[derive(Clone, Copy, Debug, PartialEq, Eq, Structural)]
pub enum InputFormat {
    Parquet,
    Csv,
}

/// The format that a file's name tells, if any.
pub open spec fn format_of(path: Seq<char>, style: PathStyle) -> Option<InputFormat> {
    match super::path::file_name(path, style) {
        None => None,
        Some(n) => if crate::text::ends_in(n, ".parquet"@) || crate::text::ends_in(n, ".pq"@) {
            Some(InputFormat::Parquet)
        } else if crate::text::ends_in(n, ".csv"@) || crate::text::ends_in(n, ".csv.gz"@) {
            Some(InputFormat::Csv)
        } else {
            None
        },
    }
}

proof fn lemma_ends_in_itself(stem: Seq<char>, suffix: Seq<char>)
    requires
        forall|i: int| 0 <= i < suffix.len() ==> crate::text::lower(#[trigger] suffix[i]) == suffix[i],
    ensures
        crate::text::ends_in(stem + suffix, suffix),
{
    let n = stem + suffix;
    assert forall|i: int| 0 <= i < suffix.len() implies crate::text::lower(
        #[trigger] n[n.len() - suffix.len() + i],
    ) == suffix[i] by {
        assert(n[n.len() - suffix.len() + i] == suffix[i]);
    }
}

/// The end of a name tells the format, whatever stands before it: a name that ends in `.parquet` or
/// `.pq` is that of a Parquet file, one that ends in `.csv`, or `.csv.gz` where it is compressed,
/// that of a CSV file.
pub proof fn law_the_end_of_a_name_tells_the_format(path: Seq<char>, style: PathStyle, stem: Seq<char>)
    ensures
        super::path::file_name(path, style) == Some(stem + ".parquet"@) ==> format_of(path, style)
            == Some(InputFormat::Parquet),
        super::path::file_name(path, style) == Some(stem + ".pq"@) ==> format_of(path, style)
            == Some(InputFormat::Parquet),
        super::path::file_name(path, style) == Some(stem + ".csv"@) ==> format_of(path, style)
            == Some(InputFormat::Csv),
        super::path::file_name(path, style) == Some(stem + ".csv.gz"@) ==> format_of(path, style)
            == Some(InputFormat::Csv),
        super::path::file_name(path, style) == Some(stem + ".txt"@) ==> format_of(path, style)
            is None,
        super::path::file_name(path, style) is None ==> format_of(path, style) is None,
{
    reveal_strlit(".parquet");
    reveal_strlit(".pq");
    reveal_strlit(".csv");
    reveal_strlit(".csv.gz");
    reveal_strlit(".txt");
    lemma_ends_in_itself(stem, ".parquet"@);
    lemma_ends_in_itself(stem, ".pq"@);
    lemma_ends_in_itself(stem, ".csv"@);
    lemma_ends_in_itself(stem, ".csv.gz"@);
    let a = stem + ".csv"@;
    let b = stem + ".csv.gz"@;
    let c = stem + ".txt"@;
    let w = ".parquet"@;
    let x = ".pq"@;
    let y = ".csv"@;
    let z = ".csv.gz"@;
    assert(crate::text::ends_in(a, w) ==> crate::text::lower(a[a.len() - w.len() + 7]) == w[7]);
    assert(crate::text::ends_in(a, x) ==> crate::text::lower(a[a.len() - x.len() + 2]) == x[2]);
    assert(crate::text::ends_in(b, w) ==> crate::text::lower(b[b.len() - w.len() + 7]) == w[7]);
    assert(crate::text::ends_in(b, x) ==> crate::text::lower(b[b.len() - x.len() + 2]) == x[2]);
    assert(a[a.len() - 1] == 'v' && b[b.len() - 1] == 'z' && c[c.len() - 1] == 't');
    assert(c[c.len() - 2] == 'x');
    assert(crate::text::ends_in(c, w) ==> crate::text::lower(c[c.len() - w.len() + 6]) == w[6]);
    assert(crate::text::ends_in(c, x) ==> crate::text::lower(c[c.len() - x.len() + 2]) == x[2]);
    assert(crate::text::ends_in(c, y) ==> crate::text::lower(c[c.len() - y.len() + 3]) == y[3]);
    assert(crate::text::ends_in(c, z) ==> crate::text::lower(c[c.len() - z.len() + 6]) == z[6]);
}

impl InputFormat {
    /// The name of a format.
    pub open spec fn name(self) -> Seq<char> {
        match self {
            InputFormat::Parquet => "parquet"@,
            InputFormat::Csv => "csv"@,
        }
    }

    /// The format that a file's name tells, whatever the case of its letters. `None`: not a data
    /// file.
    pub fn of(path: &str, style: PathStyle) -> (r: Option<Self>)
        ensures
            r == format_of(path@, style),
    {
        match name_of(path, style) {
            None => None,
            Some(n) => {
                let n: &[char] = n.as_slice();
                if ends_with_lower(n, ".parquet") || ends_with_lower(n, ".pq") {
                    Some(InputFormat::Parquet)
                } else if ends_with_lower(n, ".csv") || ends_with_lower(n, ".csv.gz") {
                    Some(InputFormat::Csv)
                } else {
                    None
                }
            },
        }
    }

    /// The name of a format.
    pub fn label(self) -> (r: &'static str)
        ensures
            r@ == self.name(),
    {
        match self {
            InputFormat::Parquet => "parquet",
            InputFormat::Csv => "csv",
        }
    }
}

/// Does a file's name say that it is compressed with gzip?
pub fn is_gzipped(path: &str, style: PathStyle) -> (r: bool)
    ensures
        r == match super::path::file_name(path@, style) {
            None => false,
            Some(n) => crate::text::ends_in(n, ".gz"@),
        },
{
    match name_of(path, style) {
        None => false,
        Some(n) => ends_with_lower(n.as_slice(), ".gz"),
    }
}

/// One entry of a directory.
pub struct DirEntry {
    pub path: String,
    pub is_file: bool,
}

/// What the file system holds at a place.
pub enum Lookup {
    Missing,
    File,
    Directory(Vec<DirEntry>),
}

/// What a caller named, and what was found. `place` is where the file system was asked: the
/// directory part of a pattern, and else the name itself.
pub struct InputSpec {
    pub spec: String,
    pub place: String,
    pub found: Lookup,
}

/// Why no list of files comes out.
pub enum InputError {
    /// Nothing was named.
    NoInput,
    Missing { spec: String },
    UnknownFormat { path: String },
    /// A pattern whose last part is no name.
    EmptyPattern,
    WildcardInDirectory { spec: String },
    DirectoryMissing { dir: String },
    /// No file was found for what was named.
    NothingFound { spec: String },
    MixedFormats { first: InputFormat, other: InputFormat },
}

/// Why no list of files comes out, over texts.
pub enum Fault {
    NoInput,
    Missing { spec: Seq<char> },
    UnknownFormat { path: Seq<char> },
    EmptyPattern,
    WildcardInDirectory { spec: Seq<char> },
    DirectoryMissing { dir: Seq<char> },
    NothingFound { spec: Seq<char> },
    MixedFormats { first: InputFormat, other: InputFormat },
}

impl InputError {
    /// The error, over texts.
    pub open spec fn view(&self) -> Fault {
        match self {
            InputError::NoInput => Fault::NoInput,
            InputError::Missing { spec } => Fault::Missing { spec: spec@ },
            InputError::UnknownFormat { path } => Fault::UnknownFormat { path: path@ },
            InputError::EmptyPattern => Fault::EmptyPattern,
            InputError::WildcardInDirectory { spec } => Fault::WildcardInDirectory { spec: spec@ },
            InputError::DirectoryMissing { dir } => Fault::DirectoryMissing { dir: dir@ },
            InputError::NothingFound { spec } => Fault::NothingFound { spec: spec@ },
            InputError::MixedFormats { first, other } => Fault::MixedFormats {
                first: *first,
                other: *other,
            },
        }
    }

    /// The error in words.
    pub fn message(&self) -> (r: String)
        ensures
            r@ == told(self.view()),
    {
        match self {
            InputError::NoInput => "没有给任何输入路径".to_owned(),
            InputError::Missing { spec } => "输入文件不存在:".to_owned().concat(spec.as_str()),
            InputError::UnknownFormat { path } => "认不出 ".to_owned().concat(path.as_str()).concat(
                " 的格式,支持 .parquet / .csv / .csv.gz",
            ),
            InputError::EmptyPattern => "glob 的最后一段为空".to_owned(),
            InputError::WildcardInDirectory { spec } =>
                "只支持文件名部分带 glob(如 data/*.parquet),目录部分不支持:".to_owned().concat(
                spec.as_str(),
            ),
            InputError::DirectoryMissing { dir } => "glob 的目录部分不存在:".to_owned().concat(
                dir.as_str(),
            ),
            InputError::NothingFound { spec } => quoted(spec.as_str()).concat(
                " 没有匹配到任何 .parquet / .csv / .csv.gz 文件",
            ),
            InputError::MixedFormats { first, other } =>
                "一次训练不能混用不同格式:同时出现了 ".to_owned().concat(first.label()).concat(" 和 ").concat(
                other.label(),
            ),
        }
    }
}

/// The words for an error.
pub open spec fn told(f: Fault) -> Seq<char> {
    match f {
        Fault::NoInput => "没有给任何输入路径"@,
        Fault::Missing { spec } => "输入文件不存在:"@ + spec,
        Fault::UnknownFormat { path } => "认不出 "@ + path
            + " 的格式,支持 .parquet / .csv / .csv.gz"@,
        Fault::EmptyPattern => "glob 的最后一段为空"@,
        Fault::WildcardInDirectory { spec } =>
            "只支持文件名部分带 glob(如 data/*.parquet),目录部分不支持:"@ + spec,
        Fault::DirectoryMissing { dir } => "glob 的目录部分不存在:"@ + dir,
        Fault::NothingFound { spec } => quoted_text(spec)
            + " 没有匹配到任何 .parquet / .csv / .csv.gz 文件"@,
        Fault::MixedFormats { first, other } => "一次训练不能混用不同格式:同时出现了 "@
            + first.name() + " 和 "@ + other.name(),
    }
}

/// A text with a `*` or a `?` in it.
pub open spec fn is_wild(s: Seq<char>) -> bool {
    s.contains('*') || s.contains('?')
}

/// The texts of strings.
pub open spec fn texts(v: Seq<String>) -> Seq<Seq<char>> {
    v.map_values(|s: String| s@)
}

/// The paths of the files among the entries whose path is wanted.
pub open spec fn kept(entries: Seq<DirEntry>, wanted: spec_fn(Seq<char>) -> bool) -> Seq<Seq<char>>
    decreases entries.len(),
{
    if entries.len() == 0 {
        seq![]
    } else {
        let rest = kept(entries.drop_last(), wanted);
        if entries.last().is_file && wanted(entries.last().path@) {
            rest.push(entries.last().path@)
        } else {
            rest
        }
    }
}

/// A part of a path with a `*` or a `?` in it.
pub open spec fn wild_part(p: super::path::Part) -> bool {
    match p {
        super::path::Part::Share(server, share) => is_wild(server) || is_wild(share),
        super::path::Part::Name(name) => is_wild(name),
        _ => false,
    }
}

/// The files that stay are those that are wanted: a path stays exactly where some entry with that
/// path is a file and the path is wanted.
pub proof fn law_wanted_files_stay(
    entries: Seq<DirEntry>,
    wanted: spec_fn(Seq<char>) -> bool,
    p: Seq<char>,
)
    ensures
        kept(entries, wanted).contains(p) <==> wanted(p) && exists|i: int|
            0 <= i < entries.len() && (#[trigger] entries[i]).is_file && entries[i].path@ == p,
    decreases entries.len(),
{
    if entries.len() > 0 {
        let front = entries.drop_last();
        law_wanted_files_stay(front, wanted, p);
        let rest = kept(front, wanted);
        let all = kept(entries, wanted);
        let last = entries[entries.len() - 1];
        assert(last == entries.last());
        if all.contains(p) {
            let k = choose|k: int| 0 <= k < all.len() && all[k] == p;
            if k < rest.len() {
                assert(rest[k] == p);
                assert(rest.contains(p));
                let i = choose|i: int|
                    0 <= i < front.len() && (#[trigger] front[i]).is_file && front[i].path@ == p;
                assert(entries[i] == front[i]);
            } else {
                assert(last.is_file && last.path@ == p);
            }
        }
        if wanted(p) && exists|i: int|
            0 <= i < entries.len() && (#[trigger] entries[i]).is_file && entries[i].path@ == p {
            let i = choose|i: int|
                0 <= i < entries.len() && (#[trigger] entries[i]).is_file && entries[i].path@ == p;
            if i < front.len() {
                assert(front[i] == entries[i]);
                assert(rest.contains(p));
                let k = choose|k: int| 0 <= k < rest.len() && rest[k] == p;
                assert(all[k] == p);
            } else {
                assert(all[rest.len() as int] == p);
            }
        }
    }
}

/// The files that a name stands for, or why there are none: for a pattern, the files of its
/// directory whose names fit; for a directory, the data files directly in it; for a file, the
/// file itself, which has to be a data file.
pub open spec fn expansion(
    spec: Seq<char>,
    place: Seq<char>,
    found: Lookup,
    style: PathStyle,
) -> Result<Seq<Seq<char>>, Fault> {
    if is_wild(spec) {
        let p = super::path::parts(spec, style);
        match super::path::file_name(spec, style) {
            None => Err(Fault::EmptyPattern),
            Some(pattern) => if exists|i: int| 0 <= i < p.len() - 1 && wild_part(#[trigger] p[i]) {
                Err(Fault::WildcardInDirectory { spec })
            } else {
                match found {
                    Lookup::Directory(entries) => Ok(
                        kept(
                            entries@,
                            |path: Seq<char>|
                                match super::path::file_name(path, style) {
                                    None => false,
                                    Some(n) => super::glob::fits(pattern, n),
                                },
                        ),
                    ),
                    _ => Err(Fault::DirectoryMissing { dir: place }),
                }
            },
        }
    } else {
        match found {
            Lookup::Directory(entries) => Ok(
                kept(entries@, |path: Seq<char>| format_of(path, style) is Some),
            ),
            Lookup::Missing => Err(Fault::Missing { spec }),
            Lookup::File => if format_of(spec, style) is Some {
                Ok(seq![spec])
            } else {
                Err(Fault::UnknownFormat { path: spec })
            },
        }
    }
}

fn wild(s: &[char]) -> (r: bool)
    ensures
        r == is_wild(s@),
{
    has_char(s, '*') || has_char(s, '?')
}

/// The data files among the entries of a directory.
fn list_dir(entries: &Vec<DirEntry>, style: PathStyle) -> (r: Vec<String>)
    ensures
        texts(r@) == kept(entries@, |path: Seq<char>| format_of(path, style) is Some),
{
    let ghost wanted = |path: Seq<char>| format_of(path, style) is Some;
    let mut r: Vec<String> = Vec::new();
    let mut i: usize = 0;
    proof {
        assert(entries@.take(0) =~= Seq::<DirEntry>::empty());
        assert(texts(r@) =~= seq![]);
    }
    while i < entries.len()
        invariant
            i <= entries@.len(),
            wanted == (|path: Seq<char>| format_of(path, style) is Some),
            texts(r@) == kept(entries@.take(i as int), wanted),
        decreases entries.len() - i,
    {
        let ghost before = r@;
        let ghost next = entries@.take(i + 1);
        proof {
            assert(next.drop_last() =~= entries@.take(i as int));
            assert(next.last() == entries@[i as int]);
        }
        let e: &DirEntry = &entries[i];
        if e.is_file && InputFormat::of(e.path.as_str(), style).is_some() {
            let p: String = e.path.clone();
            r.push(p);
            assert(texts(r@) =~= texts(before).push(e.path@));
        }
        i += 1;
    }
    assert(entries@.take(i as int) =~= entries@);
    r
}

/// The entries of a directory that are files and fit a pattern.
fn expand_glob(pattern: &[char], entries: &Vec<DirEntry>, style: PathStyle) -> (r: Vec<String>)
    ensures
        texts(r@) == kept(
            entries@,
            |path: Seq<char>|
                match super::path::file_name(path, style) {
                    None => false,
                    Some(n) => super::glob::fits(pattern@, n),
                },
        ),
{
    let ghost wanted = |path: Seq<char>|
        match super::path::file_name(path, style) {
            None => false,
            Some(n) => super::glob::fits(pattern@, n),
        };
    let mut r: Vec<String> = Vec::new();
    let mut i: usize = 0;
    proof {
        assert(entries@.take(0) =~= Seq::<DirEntry>::empty());
        assert(texts(r@) =~= seq![]);
    }
    while i < entries.len()
        invariant
            i <= entries@.len(),
            wanted == (|path: Seq<char>|
                match super::path::file_name(path, style) {
                    None => false,
                    Some(n) => super::glob::fits(pattern@, n),
                }),
            texts(r@) == kept(entries@.take(i as int), wanted),
        decreases entries.len() - i,
    {
        let ghost before = r@;
        let ghost next = entries@.take(i + 1);
        proof {
            assert(next.drop_last() =~= entries@.take(i as int));
            assert(next.last() == entries@[i as int]);
        }
        let e: &DirEntry = &entries[i];
        let fits: bool = match name_of(e.path.as_str(), style) {
            None => false,
            Some(n) => fits_chars(pattern, n.as_slice()),
        };
        if e.is_file && fits {
            let p: String = e.path.clone();
            r.push(p);
            assert(texts(r@) =~= texts(before).push(e.path@));
        }
        i += 1;
    }
    assert(entries@.take(i as int) =~= entries@);
    r
}

/// Is any part but the last wild?
fn wild_directory(parts: &Vec<PathPart>) -> (r: bool)
    ensures
        r == exists|i: int|
            0 <= i < parts@.len() - 1 && wild_part(#[trigger] super::path::views(parts@)[i]),
{
    let n: usize = parts.len();
    let mut i: usize = 0;
    while i < n && n - i > 1
        invariant
            n == parts@.len(),
            i <= n,
            forall|k: int| 0 <= k < i ==> !wild_part(#[trigger] super::path::views(parts@)[k]),
        decreases n - i,
    {
        let w: bool = match &parts[i] {
            PathPart::Share(server, share) => wild(server.as_slice()) || wild(share.as_slice()),
            PathPart::Name(name) => wild(name.as_slice()),
            _ => false,
        };
        assert(super::path::views(parts@)[i as int] == parts@[i as int].view());
        if w {
            return true;
        }
        i += 1;
    }
    false
}

/// The files that a name stands for, or why there are none.
pub fn expand_one(s: &InputSpec, style: PathStyle) -> (r: Result<Vec<String>, InputError>)
    ensures
        match r {
            Ok(v) => expansion(s.spec@, s.place@, s.found, style) == Ok::<Seq<Seq<char>>, Fault>(
                texts(v@),
            ),
            Err(e) => expansion(s.spec@, s.place@, s.found, style) == Err::<Seq<Seq<char>>, Fault>(
                e.view(),
            ),
        },
{
    let chars: Vec<char> = to_chars(s.spec.as_str());
    if wild(chars.as_slice()) {
        let parts: Vec<PathPart> = path_parts(chars.as_slice(), style);
        match name_of(s.spec.as_str(), style) {
            None => Err(InputError::EmptyPattern),
            Some(pattern) => {
                assert(super::path::views(parts@).len() == parts@.len());
                if wild_directory(&parts) {
                    Err(InputError::WildcardInDirectory { spec: s.spec.clone() })
                } else {
                    match &s.found {
                        Lookup::Directory(entries) => Ok(
                            expand_glob(pattern.as_slice(), entries, style),
                        ),
                        _ => Err(InputError::DirectoryMissing { dir: s.place.clone() }),
                    }
                }
            },
        }
    } else {
        match &s.found {
            Lookup::Directory(entries) => Ok(list_dir(entries, style)),
            Lookup::Missing => Err(InputError::Missing { spec: s.spec.clone() }),
            Lookup::File => match InputFormat::of(s.spec.as_str(), style) {
                None => Err(InputError::UnknownFormat { path: s.spec.clone() }),
                Some(_) => {
                    let mut v: Vec<String> = Vec::new();
                    v.push(s.spec.clone());
                    assert(texts(v@) =~= seq![s.spec@]);
                    Ok(v)
                },
            },
        }
    }
}

/// The files of a resolved input, in order, and the one format they have.
pub struct ResolvedInput {
    pub paths: Vec<String>,
    pub format: InputFormat,
}

/// All files that the first `k` names stand for, or the first error among them.
pub open spec fn all_files(specs: Seq<InputSpec>, k: int, style: PathStyle) -> Result<
    Seq<Seq<char>>,
    Fault,
>
    decreases k,
{
    if k <= 0 {
        Ok(seq![])
    } else {
        match all_files(specs, k - 1, style) {
            Err(e) => Err(e),
            Ok(files) => {
                let s = specs[k - 1];
                match expansion(s.spec@, s.place@, s.found, style) {
                    Err(e) => Err(e),
                    Ok(v) => if v.len() == 0 {
                        Err(Fault::NothingFound { spec: s.spec@ })
                    } else {
                        Ok(files + v)
                    },
                }
            },
        }
    }
}

/// The first mention of a path in a list, up to how the same parts are written.
pub open spec fn first_mention(all: Seq<Seq<char>>, k: int, style: PathStyle) -> bool {
    forall|j: int|
        0 <= j < k ==> super::path::parts(#[trigger] all[j], style) != super::path::parts(
            all[k],
            style,
        )
}

/// A path is the first of a list that has its parts.
pub open spec fn leads(all: Seq<Seq<char>>, p: Seq<char>, style: PathStyle) -> bool {
    exists|k: int| 0 <= k < all.len() && all[k] == p && #[trigger] first_mention(all, k, style)
}

/// A list holds a path with the same parts as this one.
pub open spec fn lists(paths: Seq<Seq<char>>, p: Seq<char>, style: PathStyle) -> bool {
    exists|i: int|
        0 <= i < paths.len() && super::path::parts(#[trigger] paths[i], style)
            == super::path::parts(p, style)
}

/// The paths of a list in the order of their parts, each once: of several that have the same
/// parts, the first.
pub open spec fn in_order(paths: Seq<Seq<char>>, all: Seq<Seq<char>>, style: PathStyle) -> bool {
    &&& forall|i: int, j: int|
        0 <= i < j < paths.len() ==> super::path::path_before(
            super::path::parts(#[trigger] paths[i], style),
            super::path::parts(#[trigger] paths[j], style),
        )
    &&& forall|i: int| 0 <= i < paths.len() ==> #[trigger] leads(all, paths[i], style)
    &&& forall|k: int| 0 <= k < all.len() ==> #[trigger] lists(paths, all[k], style)
}

/// The format that the first `k` paths share, or why they share none.
pub open spec fn common_format(paths: Seq<Seq<char>>, k: int, style: PathStyle) -> Result<
    Option<InputFormat>,
    Fault,
>
    decreases k,
{
    if k <= 0 {
        Ok(None)
    } else {
        match common_format(paths, k - 1, style) {
            Err(e) => Err(e),
            Ok(prev) => match format_of(paths[k - 1], style) {
                None => Err(Fault::UnknownFormat { path: paths[k - 1] }),
                Some(f) => match prev {
                    Some(first) => if first != f {
                        Err(Fault::MixedFormats { first, other: f })
                    } else {
                        Ok(prev)
                    },
                    None => Ok(Some(f)),
                },
            },
        }
    }
}

/// The paths of a list, put in order, share no format, and why.
pub open spec fn disagree(all: Seq<Seq<char>>, f: Fault, style: PathStyle) -> bool {
    exists|paths: Seq<Seq<char>>| #[trigger]
        in_order(paths, all, style) && common_format(paths, paths.len() as int, style) == Err::<
            Option<InputFormat>,
            Fault,
        >(f)
}

/// Files share a format exactly where the name of each tells that format.
pub proof fn law_files_of_one_format(paths: Seq<Seq<char>>, k: int, style: PathStyle, f: InputFormat)
    requires
        0 < k <= paths.len(),
    ensures
        common_format(paths, k, style) == Ok::<Option<InputFormat>, Fault>(Some(f)) <==> forall|i: int|
            0 <= i < k ==> format_of(#[trigger] paths[i], style) == Some(f),
    decreases k,
{
    if k > 1 {
        law_files_of_one_format(paths, k - 1, style, f);
        if common_format(paths, k - 1, style) is Ok {
            lemma_some_format(paths, k - 1, style);
            let g = common_format(paths, k - 1, style)->Ok_0->0;
            law_files_of_one_format(paths, k - 1, style, g);
        }
        let old = forall|i: int| 0 <= i < k - 1 ==> format_of(#[trigger] paths[i], style) == Some(f);
        let new = forall|i: int| 0 <= i < k ==> format_of(#[trigger] paths[i], style) == Some(f);
        if new {
            assert(format_of(paths[k - 1], style) == Some(f));
            assert(old);
        }
        if old && format_of(paths[k - 1], style) == Some(f) {
            assert(new);
        }
    } else {
        assert(common_format(paths, 0, style) == Ok::<Option<InputFormat>, Fault>(None));
        assert(format_of(paths[0], style) == Some(f) <==> forall|i: int|
            0 <= i < k ==> format_of(#[trigger] paths[i], style) == Some(f));
    }
}

/// Keys that belong to paths.
spec fn keyed(paths: Seq<String>, keys: Seq<Vec<PathPart>>, style: PathStyle) -> bool {
    &&& paths.len() == keys.len()
    &&& forall|i: int|
        0 <= i < paths.len() ==> super::path::views((#[trigger] keys[i])@) == super::path::parts(
            paths[i]@,
            style,
        )
}

proof fn lemma_lead_kept(all: Seq<Seq<char>>, p: Seq<char>, q: Seq<char>, style: PathStyle)
    requires
        leads(all, q, style),
    ensures
        leads(all.push(p), q, style),
{
    let k = choose|k: int|
        0 <= k < all.len() && all[k] == q && #[trigger] first_mention(all, k, style);
    let more = all.push(p);
    assert(more[k] == all[k]);
    assert forall|j: int| 0 <= j < k implies super::path::parts(#[trigger] more[j], style)
        != super::path::parts(more[k], style) by {
        assert(more[j] == all[j]);
    }
    assert(first_mention(more, k, style));
}

proof fn lemma_known_path(
    paths: Seq<Seq<char>>,
    all: Seq<Seq<char>>,
    p: Seq<char>,
    at: int,
    style: PathStyle,
)
    requires
        in_order(paths, all, style),
        0 <= at < paths.len(),
        super::path::parts(paths[at], style) == super::path::parts(p, style),
    ensures
        in_order(paths, all.push(p), style),
{
    let more = all.push(p);
    assert forall|i: int| 0 <= i < paths.len() implies #[trigger] leads(more, paths[i], style) by {
        assert(leads(all, paths[i], style));
        lemma_lead_kept(all, p, paths[i], style);
    }
    assert forall|k: int| 0 <= k < more.len() implies #[trigger] lists(paths, more[k], style) by {
        if k < all.len() {
            assert(more[k] == all[k]);
            assert(lists(paths, all[k], style));
        } else {
            assert(super::path::parts(paths[at], style) == super::path::parts(more[k], style));
        }
    }
}

proof fn lemma_new_path(
    paths: Seq<Seq<char>>,
    all: Seq<Seq<char>>,
    p: Seq<char>,
    at: int,
    style: PathStyle,
)
    requires
        in_order(paths, all, style),
        0 <= at <= paths.len(),
        forall|i: int|
            0 <= i < at ==> super::path::path_before(
                super::path::parts(#[trigger] paths[i], style),
                super::path::parts(p, style),
            ),
        forall|i: int|
            at <= i < paths.len() ==> super::path::path_before(
                super::path::parts(p, style),
                super::path::parts(#[trigger] paths[i], style),
            ),
    ensures
        in_order(paths.insert(at, p), all.push(p), style),
{
    let more = all.push(p);
    let grown = paths.insert(at, p);
    assert forall|i: int, j: int| 0 <= i < j < grown.len() implies super::path::path_before(
        super::path::parts(#[trigger] grown[i], style),
        super::path::parts(#[trigger] grown[j], style),
    ) by {
        let i0 = if i < at {
            i
        } else {
            i - 1
        };
        let j0 = if j < at {
            j
        } else {
            j - 1
        };
        if i != at {
            assert(grown[i] == paths[i0]);
        }
        if j != at {
            assert(grown[j] == paths[j0]);
        }
    }
    assert forall|i: int| 0 <= i < grown.len() implies #[trigger] leads(more, grown[i], style) by {
        if i == at {
            let k = all.len() as int;
            assert(more[k] == p);
            assert forall|j: int| 0 <= j < k implies super::path::parts(#[trigger] more[j], style)
                != super::path::parts(more[k], style) by {
                assert(more[j] == all[j]);
                assert(lists(paths, all[j], style));
                let m = choose|m: int|
                    0 <= m < paths.len() && super::path::parts(#[trigger] paths[m], style)
                        == super::path::parts(all[j], style);
                super::path::law_paths_are_ordered(
                    super::path::parts(paths[m], style),
                    super::path::parts(p, style),
                );
            }
            assert(first_mention(more, k, style));
        } else {
            let i0 = if i < at {
                i
            } else {
                i - 1
            };
            assert(grown[i] == paths[i0]);
            assert(leads(all, paths[i0], style));
            lemma_lead_kept(all, p, paths[i0], style);
        }
    }
    assert forall|k: int| 0 <= k < more.len() implies #[trigger] lists(grown, more[k], style) by {
        if k < all.len() {
            assert(more[k] == all[k]);
            assert(lists(paths, all[k], style));
            let m = choose|m: int|
                0 <= m < paths.len() && super::path::parts(#[trigger] paths[m], style)
                    == super::path::parts(all[k], style);
            if m < at {
                assert(grown[m] == paths[m]);
            } else {
                assert(grown[m + 1] == paths[m]);
            }
        } else {
            assert(grown[at] == p);
        }
    }
}

/// Puts a path in its place, unless one with the same parts is there.
fn put(
    paths: &mut Vec<String>,
    keys: &mut Vec<Vec<PathPart>>,
    p: &String,
    Ghost(all): Ghost<Seq<Seq<char>>>,
    style: PathStyle,
)
    requires
        keyed(old(paths)@, old(keys)@, style),
        in_order(texts(old(paths)@), all, style),
    ensures
        keyed(final(paths)@, final(keys)@, style),
        in_order(texts(final(paths)@), all.push(p@), style),
{
    let chars: Vec<char> = to_chars(p.as_str());
    let key: Vec<PathPart> = path_parts(chars.as_slice(), style);
    let n: usize = keys.len();
    let mut at: usize = 0;
    let ghost t = texts(paths@);
    let ghost paths0 = paths@;
    let ghost keys0 = keys@;
    while at < n
        invariant
            n == keys@.len(),
            at <= n,
            paths@ == paths0,
            keys@ == keys0,
            keyed(paths0, keys0, style),
            t == texts(paths0),
            in_order(t, all, style),
            super::path::views(key@) == super::path::parts(p@, style),
            forall|i: int|
                0 <= i < at ==> super::path::path_before(
                    super::path::parts(#[trigger] t[i], style),
                    super::path::parts(p@, style),
                ),
        ensures
            at <= n,
            paths@ == paths0,
            keys@ == keys0,
            forall|i: int|
                0 <= i < at ==> super::path::path_before(
                    super::path::parts(#[trigger] t[i], style),
                    super::path::parts(p@, style),
                ),
            at < n ==> super::path::path_before(
                super::path::parts(p@, style),
                super::path::parts(t[at as int], style),
            ),
        decreases n - at,
    {
        assert(t[at as int] == paths0[at as int]@);
        match place_paths(keys[at].as_slice(), key.as_slice()) {
            Place::Before => {
                at += 1;
            },
            Place::Same => {
                proof {
                    lemma_known_path(t, all, p@, at as int, style);
                }
                return ;
            },
            Place::After => {
                break;
            },
        }
    }
    proof {
        assert forall|i: int| at <= i < t.len() implies super::path::path_before(
            super::path::parts(p@, style),
            super::path::parts(#[trigger] t[i], style),
        ) by {
            if i > at {
                super::path::law_path_order_chains(
                    super::path::parts(p@, style),
                    super::path::parts(t[at as int], style),
                    super::path::parts(t[i], style),
                );
            }
        }
        lemma_new_path(t, all, p@, at as int, style);
    }
    let copy: String = p.clone();
    paths.insert(at, copy);
    keys.insert(at, key);
    proof {
        assert(texts(paths@) =~= t.insert(at as int, p@));
        assert forall|i: int| 0 <= i < paths@.len() implies super::path::views(
            (#[trigger] keys@[i])@,
        ) == super::path::parts(paths@[i]@, style) by {
            if i < at {
                assert(keys@[i] == keys0[i]);
            } else if i > at {
                assert(keys@[i] == keys0[i - 1]);
            }
        }
    }
}

/// Puts each of several paths in its place.
fn put_all(
    paths: &mut Vec<String>,
    keys: &mut Vec<Vec<PathPart>>,
    more: &Vec<String>,
    Ghost(all): Ghost<Seq<Seq<char>>>,
    style: PathStyle,
)
    requires
        keyed(old(paths)@, old(keys)@, style),
        in_order(texts(old(paths)@), all, style),
    ensures
        keyed(final(paths)@, final(keys)@, style),
        in_order(texts(final(paths)@), all + texts(more@), style),
{
    let mut i: usize = 0;
    assert(all + texts(more@).take(0) =~= all);
    while i < more.len()
        invariant
            i <= more@.len(),
            keyed(paths@, keys@, style),
            in_order(texts(paths@), all + texts(more@).take(i as int), style),
        decreases more.len() - i,
    {
        let ghost so_far = all + texts(more@).take(i as int);
        put(paths, keys, &more[i], Ghost(so_far), style);
        assert(so_far.push(more@[i as int]@) =~= all + texts(more@).take(i + 1));
        i += 1;
    }
    assert(texts(more@).take(i as int) =~= texts(more@));
}

/// The format that all paths share, or why they share none.
fn shared_format(paths: &Vec<String>, style: PathStyle) -> (r: Result<Option<InputFormat>, InputError>)
    ensures
        match r {
            Ok(f) => common_format(texts(paths@), paths@.len() as int, style) == Ok::<
                Option<InputFormat>,
                Fault,
            >(f),
            Err(e) => common_format(texts(paths@), paths@.len() as int, style) == Err::<
                Option<InputFormat>,
                Fault,
            >(e.view()),
        },
{
    let ghost t = texts(paths@);
    let mut format: Option<InputFormat> = None;
    let mut i: usize = 0;
    while i < paths.len()
        invariant
            i <= paths@.len(),
            t == texts(paths@),
            common_format(t, i as int, style) == Ok::<Option<InputFormat>, Fault>(format),
        decreases paths.len() - i,
    {
        assert(t[i as int] == paths@[i as int]@);
        let ghost here = common_format(t, i + 1, style);
        match InputFormat::of(paths[i].as_str(), style) {
            None => {
                let e: InputError = InputError::UnknownFormat { path: paths[i].clone() };
                proof {
                    lemma_format_error_stays(t, i + 1, t.len() as int, style);
                }
                return Err(e);
            },
            Some(f) => match format {
                None => {
                    format = Some(f);
                },
                Some(first) => if first != f {
                    proof {
                        lemma_format_error_stays(t, i + 1, t.len() as int, style);
                    }
                    return Err(InputError::MixedFormats { first, other: f });
                },
            },
        }
        i += 1;
    }
    Ok(format)
}

proof fn lemma_format_error_stays(paths: Seq<Seq<char>>, k: int, n: int, style: PathStyle)
    requires
        0 <= k <= n,
        common_format(paths, k, style) is Err,
    ensures
        common_format(paths, n, style) == common_format(paths, k, style),
    decreases n - k,
{
    if k < n {
        lemma_format_error_stays(paths, k, n - 1, style);
    }
}

proof fn lemma_file_error_stays(specs: Seq<InputSpec>, k: int, n: int, style: PathStyle)
    requires
        0 <= k <= n,
        all_files(specs, k, style) is Err,
    ensures
        all_files(specs, n, style) == all_files(specs, k, style),
    decreases n - k,
{
    if k < n {
        lemma_file_error_stays(specs, k, n - 1, style);
    }
}

/// What becomes of names: their files, each once and in order, with the format they share; or the
/// first reason why there is no such list.
pub open spec fn is_resolution(
    specs: Seq<InputSpec>,
    r: Result<ResolvedInput, InputError>,
    style: PathStyle,
) -> bool {
    if specs.len() == 0 {
        r matches Err(e) && e.view() == Fault::NoInput
    } else {
        match all_files(specs, specs.len() as int, style) {
            Err(f) => r matches Err(e) && e.view() == f,
            Ok(all) => match r {
                Ok(res) => in_order(texts(res.paths@), all, style) && common_format(
                    texts(res.paths@),
                    res.paths@.len() as int,
                    style,
                ) == Ok::<Option<InputFormat>, Fault>(Some(res.format)),
                Err(e) => disagree(all, e.view(), style),
            },
        }
    }
}

/// The files that the names stand for, each once and in order, with the format they share; or
/// the first reason why there is no such list.
pub fn resolve(specs: &[InputSpec], style: PathStyle) -> (r: Result<ResolvedInput, InputError>)
    ensures
        is_resolution(specs@, r, style),
{
    let n: usize = specs.len();
    if n == 0 {
        return Err(InputError::NoInput);
    }
    let mut paths: Vec<String> = Vec::new();
    let mut keys: Vec<Vec<PathPart>> = Vec::new();
    let mut i: usize = 0;
    let ghost mut all: Seq<Seq<char>> = seq![];
    while i < n
        invariant
            n == specs@.len(),
            i <= n,
            all_files(specs@, i as int, style) == Ok::<Seq<Seq<char>>, Fault>(all),
            keyed(paths@, keys@, style),
            in_order(texts(paths@), all, style),
            i > 0 ==> all.len() > 0,
        decreases n - i,
    {
        match expand_one(&specs[i], style) {
            Err(e) => {
                proof {
                    lemma_file_error_stays(specs@, i + 1, n as int, style);
                }
                return Err(e);
            },
            Ok(v) => {
                assert(texts(v@).len() == v@.len());
                if v.len() == 0 {
                    proof {
                        lemma_file_error_stays(specs@, i + 1, n as int, style);
                    }
                    return Err(InputError::NothingFound { spec: specs[i].spec.clone() });
                }
                put_all(&mut paths, &mut keys, &v, Ghost(all), style);
                proof {
                    all = all + texts(v@);
                }
            },
        }
        i += 1;
    }
    assert(texts(paths@).len() == paths@.len());
    proof {
        assert(lists(texts(paths@), all[0], style));
    }
    assert(paths@.len() > 0);
    assert(all_files(specs@, specs@.len() as int, style) == Ok::<Seq<Seq<char>>, Fault>(all));
    let ghost t = texts(paths@);
    match shared_format(&paths, style) {
        Err(e) => {
            assert(in_order(t, all, style));
            assert(disagree(all, e.view(), style));
            Err(e)
        },
        Ok(f) => {
            proof {
                lemma_some_format(texts(paths@), paths@.len() as int, style);
                assert(f is Some);
            }
            match f {
                Some(format) => Ok(ResolvedInput { paths, format }),
                None => Err(InputError::NoInput),
            }
        },
    }
}

proof fn lemma_some_format(paths: Seq<Seq<char>>, k: int, style: PathStyle)
    requires
        0 < k,
        common_format(paths, k, style) is Ok,
    ensures
        common_format(paths, k, style)->Ok_0 is Some,
    decreases k,
{
}

proof fn lemma_sorted_is_unique(a: Seq<Seq<super::path::Part>>, b: Seq<Seq<super::path::Part>>)
    requires
        forall|i: int, j: int|
            0 <= i < j < a.len() ==> super::path::path_before(#[trigger] a[i], #[trigger] a[j]),
        forall|i: int, j: int|
            0 <= i < j < b.len() ==> super::path::path_before(#[trigger] b[i], #[trigger] b[j]),
        forall|i: int| 0 <= i < a.len() ==> b.contains(#[trigger] a[i]),
        forall|i: int| 0 <= i < b.len() ==> a.contains(#[trigger] b[i]),
    ensures
        a == b,
    decreases a.len(),
{
    if a.len() == 0 {
        if b.len() > 0 {
            assert(a.contains(b[0]));
        }
        assert(a =~= b);
    } else {
        assert(b.contains(a[0]));
        let j = choose|j: int| 0 <= j < b.len() && b[j] == a[0];
        assert(a.contains(b[0]));
        let i = choose|i: int| 0 <= i < a.len() && a[i] == b[0];
        super::path::law_paths_are_ordered(a[0], b[0]);
        assert(a[0] == b[0]) by {
            if i > 0 && j > 0 {
                assert(super::path::path_before(a[0], a[i]));
                assert(super::path::path_before(b[0], b[j]));
            }
        }
        let ta = a.skip(1);
        let tb = b.skip(1);
        assert forall|k: int| 0 <= k < ta.len() implies tb.contains(#[trigger] ta[k]) by {
            assert(ta[k] == a[k + 1]);
            assert(b.contains(a[k + 1]));
            let m = choose|m: int| 0 <= m < b.len() && b[m] == a[k + 1];
            super::path::law_paths_are_ordered(a[0], a[k + 1]);
            assert(super::path::path_before(a[0], a[k + 1]));
            assert(m != 0);
            assert(tb[m - 1] == b[m]);
        }
        assert forall|k: int| 0 <= k < tb.len() implies ta.contains(#[trigger] tb[k]) by {
            assert(tb[k] == b[k + 1]);
            assert(a.contains(b[k + 1]));
            let m = choose|m: int| 0 <= m < a.len() && a[m] == b[k + 1];
            super::path::law_paths_are_ordered(b[0], b[k + 1]);
            assert(super::path::path_before(b[0], b[k + 1]));
            assert(m != 0);
            assert(ta[m - 1] == a[m]);
        }
        assert forall|p: int, q: int| 0 <= p < q < ta.len() implies super::path::path_before(
            #[trigger] ta[p],
            #[trigger] ta[q],
        ) by {
            assert(ta[p] == a[p + 1] && ta[q] == a[q + 1]);
        }
        assert forall|p: int, q: int| 0 <= p < q < tb.len() implies super::path::path_before(
            #[trigger] tb[p],
            #[trigger] tb[q],
        ) by {
            assert(tb[p] == b[p + 1] && tb[q] == b[q + 1]);
        }
        lemma_sorted_is_unique(ta, tb);
        assert forall|k: int| 0 <= k < a.len() implies a[k] == b[k] by {
            if k > 0 {
                assert(ta[k - 1] == tb[k - 1]);
            }
        }
        assert(ta.len() == tb.len());
        assert(a =~= b);
    }
}

/// The order of the files is fixed: two listings that mention the same paths, in whatever order
/// and however often, give files with the same parts in the same places.
pub proof fn law_order_does_not_depend_on_the_listing(
    paths: Seq<Seq<char>>,
    all: Seq<Seq<char>>,
    other_paths: Seq<Seq<char>>,
    other_all: Seq<Seq<char>>,
    style: PathStyle,
)
    requires
        in_order(paths, all, style),
        in_order(other_paths, other_all, style),
        forall|p: Seq<char>| #[trigger] all.contains(p) <==> other_all.contains(p),
    ensures
        paths.len() == other_paths.len(),
        forall|i: int|
            0 <= i < paths.len() ==> super::path::parts(#[trigger] paths[i], style) == super::path::parts(
                other_paths[i],
                style,
            ),
{
    let a = paths.map_values(|p: Seq<char>| super::path::parts(p, style));
    let b = other_paths.map_values(|p: Seq<char>| super::path::parts(p, style));
    assert forall|i: int, j: int| 0 <= i < j < a.len() implies super::path::path_before(
        #[trigger] a[i],
        #[trigger] a[j],
    ) by {
        assert(a[i] == super::path::parts(paths[i], style) && a[j] == super::path::parts(paths[j], style));
    }
    assert forall|i: int, j: int| 0 <= i < j < b.len() implies super::path::path_before(
        #[trigger] b[i],
        #[trigger] b[j],
    ) by {
        assert(b[i] == super::path::parts(other_paths[i], style) && b[j] == super::path::parts(
            other_paths[j],
            style,
        ));
    }
    assert forall|i: int| 0 <= i < a.len() implies b.contains(#[trigger] a[i]) by {
        lemma_listed(paths, all, other_paths, other_all, i, style);
    }
    assert forall|i: int| 0 <= i < b.len() implies a.contains(#[trigger] b[i]) by {
        lemma_listed(other_paths, other_all, paths, all, i, style);
    }
    lemma_sorted_is_unique(a, b);
    assert forall|i: int| 0 <= i < paths.len() implies super::path::parts(#[trigger] paths[i], style)
        == super::path::parts(other_paths[i], style) by {
        assert(a[i] == b[i]);
    }
}

proof fn lemma_listed(
    paths: Seq<Seq<char>>,
    all: Seq<Seq<char>>,
    other_paths: Seq<Seq<char>>,
    other_all: Seq<Seq<char>>,
    i: int,
    style: PathStyle,
)
    requires
        in_order(paths, all, style),
        in_order(other_paths, other_all, style),
        forall|p: Seq<char>| #[trigger] all.contains(p) <==> other_all.contains(p),
        0 <= i < paths.len(),
    ensures
        other_paths.map_values(|p: Seq<char>| super::path::parts(p, style)).contains(
            super::path::parts(paths[i], style),
        ),
{
    let b = other_paths.map_values(|p: Seq<char>| super::path::parts(p, style));
    assert(leads(all, paths[i], style));
    let k = choose|k: int|
        0 <= k < all.len() && all[k] == paths[i] && #[trigger] first_mention(all, k, style);
    assert(all.contains(all[k]));
    let m = choose|m: int| 0 <= m < other_all.len() && other_all[m] == all[k];
    assert(lists(other_paths, other_all[m], style));
    let j = choose|j: int|
        0 <= j < other_paths.len() && super::path::parts(#[trigger] other_paths[j], style)
            == super::path::parts(other_all[m], style);
    assert(b[j] == super::path::parts(paths[i], style));
}

/// The files that one name stands for.
pub open spec fn files_of(s: InputSpec, style: PathStyle) -> Result<Seq<Seq<char>>, Fault> {
    expansion(s.spec@, s.place@, s.found, style)
}

/// A name that stands for a file or more.
pub open spec fn finds_files(s: InputSpec, style: PathStyle) -> bool {
    files_of(s, style) matches Ok(v) && v.len() > 0
}

/// A name stands for this file, among others.
pub open spec fn finds(s: InputSpec, p: Seq<char>, style: PathStyle) -> bool {
    files_of(s, style) matches Ok(v) && v.contains(p)
}

proof fn lemma_all_files(specs: Seq<InputSpec>, k: int, style: PathStyle)
    requires
        0 <= k <= specs.len(),
    ensures
        all_files(specs, k, style) is Ok <==> forall|i: int|
            0 <= i < k ==> finds_files(#[trigger] specs[i], style),
        all_files(specs, k, style) matches Ok(all) ==> forall|p: Seq<char>| #[trigger]
            all.contains(p) <==> exists|i: int| 0 <= i < k && finds(#[trigger] specs[i], p, style),
    decreases k,
{
    if k > 0 {
        lemma_all_files(specs, k - 1, style);
        if let Ok(all) = all_files(specs, k, style) {
            let before = all_files(specs, k - 1, style)->Ok_0;
            let v = files_of(specs[k - 1], style)->Ok_0;
            assert forall|p: Seq<char>| #[trigger] all.contains(p) <==> exists|i: int|
                0 <= i < k && finds(#[trigger] specs[i], p, style) by {
                if all.contains(p) {
                    let j = choose|j: int| 0 <= j < all.len() && all[j] == p;
                    if j < before.len() {
                        assert(before[j] == p);
                        assert(before.contains(p));
                    } else {
                        assert(v[j - before.len()] == p);
                        assert(finds(specs[k - 1], p, style));
                    }
                }
                if before.contains(p) {
                    let j = choose|j: int| 0 <= j < before.len() && before[j] == p;
                    assert(all[j] == p);
                }
                if v.contains(p) {
                    let j = choose|j: int| 0 <= j < v.len() && v[j] == p;
                    assert(all[before.len() + j] == p);
                }
                if exists|i: int| 0 <= i < k && finds(#[trigger] specs[i], p, style) {
                    let i = choose|i: int| 0 <= i < k && finds(#[trigger] specs[i], p, style);
                    if i < k - 1 {
                        assert(before.contains(p));
                    }
                }
            }
        }
    }
}

proof fn lemma_common_format(paths: Seq<Seq<char>>, k: int, f: InputFormat, style: PathStyle)
    requires
        0 < k <= paths.len(),
    ensures
        common_format(paths, k, style) == Ok::<Option<InputFormat>, Fault>(Some(f)) <==> forall|
            i: int,
        |
            0 <= i < k ==> format_of(#[trigger] paths[i], style) == Some(f),
    decreases k,
{
    if k > 1 {
        lemma_common_format(paths, k - 1, f, style);
        if common_format(paths, k - 1, style) is Ok {
            lemma_some_format(paths, k - 1, style);
        }
        if let Ok(Some(g)) = common_format(paths, k - 1, style) {
            lemma_common_format(paths, k - 1, g, style);
            assert(format_of(paths[0], style) == Some(g));
        }
        if forall|i: int| 0 <= i < k ==> format_of(#[trigger] paths[i], style) == Some(f) {
            assert(format_of(paths[k - 1], style) == Some(f));
        }
    } else {
        reveal_with_fuel(common_format, 2);
    }
}

/// Resolved files: there is one at least, they stand in strictly rising order, all have the one
/// format, each is a file that some name stands for, and every file that a name stands for is
/// there, in this or another spelling of the same parts. Every name stands for a file at least.
pub proof fn law_resolved_files(specs: Seq<InputSpec>, res: ResolvedInput, style: PathStyle)
    requires
        is_resolution(specs, Ok(res), style),
    ensures
        res.paths@.len() > 0,
        forall|i: int, j: int|
            0 <= i < j < res.paths@.len() ==> super::path::path_before(
                super::path::parts((#[trigger] res.paths@[i])@, style),
                super::path::parts((#[trigger] res.paths@[j])@, style),
            ),
        forall|i: int|
            0 <= i < res.paths@.len() ==> format_of((#[trigger] res.paths@[i])@, style) == Some(
                res.format,
            ),
        forall|i: int|
            0 <= i < res.paths@.len() ==> exists|k: int|
                0 <= k < specs.len() && finds(
                    #[trigger] specs[k],
                    (#[trigger] res.paths@[i])@,
                    style,
                ),
        forall|k: int| 0 <= k < specs.len() ==> finds_files(#[trigger] specs[k], style),
        forall|k: int, p: Seq<char>|
            0 <= k < specs.len() && #[trigger] finds(specs[k], p, style) ==> lists(
                texts(res.paths@),
                p,
                style,
            ),
{
    let n = specs.len() as int;
    let t = texts(res.paths@);
    let all = all_files(specs, n, style)->Ok_0;
    lemma_all_files(specs, n, style);
    assert(finds_files(specs[0], style));
    let first = files_of(specs[0], style)->Ok_0;
    assert(first.contains(first[0]));
    assert(finds(specs[0], first[0], style));
    assert(all.contains(first[0]));
    assert forall|k: int, p: Seq<char>|
        0 <= k < specs.len() && #[trigger] finds(specs[k], p, style) implies lists(t, p, style) by {
        assert(all.contains(p));
        let j = choose|j: int| 0 <= j < all.len() && all[j] == p;
        assert(lists(t, all[j], style));
    }
    assert(t.len() == res.paths@.len());
    assert(lists(t, first[0], style));
    lemma_common_format(t, t.len() as int, res.format, style);
    assert forall|i: int| 0 <= i < res.paths@.len() implies format_of(
        (#[trigger] res.paths@[i])@,
        style,
    ) == Some(res.format) by {
        assert(t[i] == res.paths@[i]@);
    }
    assert forall|i: int, j: int| 0 <= i < j < res.paths@.len() implies super::path::path_before(
        super::path::parts((#[trigger] res.paths@[i])@, style),
        super::path::parts((#[trigger] res.paths@[j])@, style),
    ) by {
        assert(t[i] == res.paths@[i]@ && t[j] == res.paths@[j]@);
    }
    assert forall|i: int| 0 <= i < res.paths@.len() implies exists|k: int|
        0 <= k < specs.len() && finds(#[trigger] specs[k], (#[trigger] res.paths@[i])@, style) by {
        assert(t[i] == res.paths@[i]@);
        assert(leads(all, t[i], style));
        let j = choose|j: int|
            0 <= j < all.len() && all[j] == t[i] && #[trigger] first_mention(all, j, style);
        assert(all.contains(t[i]));
    }
}

/// The order in which names are given, and how often, makes no difference: names that resolve
/// resolve in any other order too, to the same files in the same places and the same format.
pub proof fn law_order_of_names_makes_no_difference(
    specs: Seq<InputSpec>,
    res: ResolvedInput,
    other_specs: Seq<InputSpec>,
    other: Result<ResolvedInput, InputError>,
    style: PathStyle,
)
    requires
        is_resolution(specs, Ok(res), style),
        is_resolution(other_specs, other, style),
        forall|s: InputSpec| #[trigger] specs.contains(s) <==> other_specs.contains(s),
    ensures
        other matches Ok(o) && {
            &&& o.format == res.format
            &&& o.paths@.len() == res.paths@.len()
            &&& forall|i: int|
                0 <= i < res.paths@.len() ==> super::path::parts(
                    (#[trigger] res.paths@[i])@,
                    style,
                ) == super::path::parts(o.paths@[i]@, style)
        },
{
    let n = specs.len() as int;
    let m = other_specs.len() as int;
    assert(specs.contains(specs[0]));
    assert(other_specs.contains(specs[0]));
    law_resolved_files(specs, res, style);
    lemma_all_files(specs, n, style);
    lemma_all_files(other_specs, m, style);
    assert forall|i: int| 0 <= i < m implies finds_files(#[trigger] other_specs[i], style) by {
        assert(other_specs.contains(other_specs[i]));
        assert(specs.contains(other_specs[i]));
        let j = choose|j: int| 0 <= j < n && specs[j] == other_specs[i];
        assert(finds_files(specs[j], style));
    }
    let all = all_files(specs, n, style)->Ok_0;
    let other_all = all_files(other_specs, m, style)->Ok_0;
    assert forall|p: Seq<char>| #[trigger] all.contains(p) <==> other_all.contains(p) by {
        if all.contains(p) {
            let i = choose|i: int| 0 <= i < n && finds(#[trigger] specs[i], p, style);
            assert(specs.contains(specs[i]));
            let j = choose|j: int| 0 <= j < m && other_specs[j] == specs[i];
            assert(finds(other_specs[j], p, style));
        }
        if other_all.contains(p) {
            let i = choose|i: int| 0 <= i < m && finds(#[trigger] other_specs[i], p, style);
            assert(other_specs.contains(other_specs[i]));
            assert(specs.contains(other_specs[i]));
            let j = choose|j: int| 0 <= j < n && specs[j] == other_specs[i];
            assert(finds(specs[j], p, style));
        }
    }
    let t = texts(res.paths@);
    let u = match other {
        Ok(o) => texts(o.paths@),
        Err(e) => choose|u: Seq<Seq<char>>| #[trigger]
            in_order(u, other_all, style) && common_format(u, u.len() as int, style) == Err::<
                Option<InputFormat>,
                Fault,
            >(e.view()),
    };
    assert(in_order(u, other_all, style));
    law_order_does_not_depend_on_the_listing(t, all, u, other_all, style);
    assert(t.len() == res.paths@.len());
    assert forall|i: int| 0 <= i < u.len() implies format_of(#[trigger] u[i], style) == Some(
        res.format,
    ) by {
        assert(t[i] == res.paths@[i]@);
        assert(super::path::parts(t[i], style) == super::path::parts(u[i], style));
    }
    lemma_common_format(u, u.len() as int, res.format, style);
    if let Ok(o) = other {
        assert(u.len() == o.paths@.len());
        assert forall|i: int| 0 <= i < res.paths@.len() implies super::path::parts(
            (#[trigger] res.paths@[i])@,
            style,
        ) == super::path::parts(o.paths@[i]@, style) by {
            assert(t[i] == res.paths@[i]@);
            assert(u[i] == o.paths@[i]@);
        }
    }
}

/// A list in rising order.
pub open spec fn rising(s: Seq<usize>) -> bool {
    forall|i: int, j: int| 0 <= i < j < s.len() ==> #[trigger] s[i] < #[trigger] s[j]
}

/// Where `c` belongs in a rising list: everything before it is smaller, everything from it on is
/// not.
fn lower_bound(s: &Vec<usize>, c: usize) -> (r: usize)
    requires
        rising(s@),
    ensures
        r <= s@.len(),
        forall|i: int| 0 <= i < r ==> s@[i] < c,
        forall|i: int| r <= i < s@.len() ==> s@[i] >= c,
{
    let mut lo: usize = 0;
    let mut hi: usize = s.len();
    while lo < hi
        invariant
            rising(s@),
            lo <= hi <= s@.len(),
            forall|i: int| 0 <= i < lo ==> s@[i] < c,
            forall|i: int| hi <= i < s@.len() ==> s@[i] >= c,
        decreases hi - lo,
    {
        let mid: usize = lo + (hi - lo) / 2;
        if s[mid] < c {
            lo = mid + 1;
        } else {
            hi = mid;
        }
    }
    lo
}

/// Which columns to read, and where each wanted column then stands. A reader gives the columns
/// that it is asked for in the order of the file, whatever order they are asked in. So the
/// columns are asked for once each, in rising order, and put back into the wanted order after.
pub fn projection_and_order(proj: &[usize]) -> (r: (Vec<usize>, Vec<usize>))
    ensures
        rising(r.0@),
        forall|c: usize| #[trigger] r.0@.contains(c) <==> proj@.contains(c),
        r.1@.len() == proj@.len(),
        forall|i: int|
            0 <= i < proj@.len() ==> (#[trigger] r.1@[i]) < r.0@.len() && r.0@[r.1@[i] as int]
                == proj@[i],
{
    let mut mask: Vec<usize> = Vec::new();
    let mut i: usize = 0;
    while i < proj.len()
        invariant
            i <= proj@.len(),
            rising(mask@),
            forall|c: usize| #[trigger] mask@.contains(c) <==> proj@.take(i as int).contains(c),
        decreases proj.len() - i,
    {
        let c: usize = proj[i];
        let ghost seen = proj@.take(i as int);
        let ghost more = proj@.take(i + 1);
        let at: usize = lower_bound(&mask, c);
        let ghost before = mask@;
        proof {
            assert(more =~= seen.push(c));
            assert(more[i as int] == c);
            assert forall|d: usize| #[trigger] more.contains(d) <==> seen.contains(d) || d == c by {
                if seen.contains(d) {
                    let k = choose|k: int| 0 <= k < seen.len() && seen[k] == d;
                    assert(more[k] == d);
                }
                if more.contains(d) && d != c {
                    let k = choose|k: int| 0 <= k < more.len() && more[k] == d;
                    assert(seen[k] == d);
                }
            }
        }
        if at < mask.len() && mask[at] == c {
            assert(before[at as int] == c);
            assert(before.contains(c));
        } else {
            mask.insert(at, c);
            proof {
                assert forall|d: usize| #[trigger] mask@.contains(d) <==> before.contains(d) || d == c by {
                    assert(mask@[at as int] == c);
                    if before.contains(d) {
                        let k = choose|k: int| 0 <= k < before.len() && before[k] == d;
                        if k < at {
                            assert(mask@[k] == d);
                        } else {
                            assert(mask@[k + 1] == d);
                        }
                    }
                    if mask@.contains(d) && d != c {
                        let k = choose|k: int| 0 <= k < mask@.len() && mask@[k] == d;
                        if k < at {
                            assert(before[k] == d);
                        } else {
                            assert(before[k - 1] == d);
                        }
                    }
                }
                assert forall|p: int, q: int| 0 <= p < q < mask@.len() implies #[trigger] mask@[p]
                    < #[trigger] mask@[q] by {
                    if p < at {
                        assert(mask@[p] == before[p]);
                    } else if p > at {
                        assert(mask@[p] == before[p - 1]);
                    }
                    if q < at {
                        assert(mask@[q] == before[q]);
                    } else if q > at {
                        assert(mask@[q] == before[q - 1]);
                    }
                }
            }
        }
        i += 1;
    }
    assert(proj@.take(i as int) =~= proj@);
    let mut order: Vec<usize> = Vec::new();
    let mut i: usize = 0;
    while i < proj.len()
        invariant
            i <= proj@.len(),
            rising(mask@),
            forall|c: usize| #[trigger] mask@.contains(c) <==> proj@.contains(c),
            order@.len() == i,
            forall|k: int|
                0 <= k < i ==> (#[trigger] order@[k]) < mask@.len() && mask@[order@[k] as int]
                    == proj@[k],
        decreases proj.len() - i,
    {
        let at: usize = lower_bound(&mask, proj[i]);
        proof {
            assert(proj@.contains(proj@[i as int]));
            assert(mask@.contains(proj@[i as int]));
            let k = choose|k: int| 0 <= k < mask@.len() && mask@[k] == proj@[i as int];
            assert(k >= at);
            assert(mask@[at as int] >= proj@[i as int]);
            assert(k == at);
        }
        order.push(at);
        i += 1;
    }
    (mask, order)
}

/// Reading the columns in file order and putting them back gives the wanted columns in the
/// wanted order, whatever the columns hold.
pub proof fn law_reordering_gives_the_wanted_columns<T>(
    columns: Seq<T>,
    proj: Seq<usize>,
    mask: Seq<usize>,
    order: Seq<usize>,
)
    requires
        order.len() == proj.len(),
        forall|i: int|
            0 <= i < proj.len() ==> (#[trigger] order[i]) < mask.len() && mask[order[i] as int]
                == proj[i],
    ensures
        order.map_values(
            |at: usize| mask.map_values(|c: usize| columns[c as int])[at as int],
        ) == proj.map_values(|c: usize| columns[c as int]),
{
    let read = mask.map_values(|c: usize| columns[c as int]);
    let put = order.map_values(|at: usize| read[at as int]);
    let want = proj.map_values(|c: usize| columns[c as int]);
    assert forall|i: int| 0 <= i < want.len() implies put[i] == want[i] by {
        assert(order[i] < mask.len() && mask[order[i] as int] == proj[i]);
    }
    assert(put =~= want);
}

} // verus!
