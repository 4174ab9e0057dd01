//! Parameters that come in as text.
use vstd::prelude::*;
use vstd::slice::slice_subrange;

use crate::text::{parse_usize, same_text, to_chars};
use crate::types::{GpuMath, Objective};

verus! {

/// What a model is trained for, by its name; `None` for a name that is not known.
pub fn parse_objective(name: &str) -> (r: Option<Objective>)
    ensures
        r == if name@ == "binary:logistic"@ {
            Some(Objective::Logistic)
        } else if name@ == "reg:squarederror"@ {
            Some(Objective::SquaredError)
        } else {
            None
        },
{
    if same_text(name, "binary:logistic") {
        Some(Objective::Logistic)
    } else if same_text(name, "reg:squarederror") {
        Some(Objective::SquaredError)
    } else {
        None
    }
}

/// How the device computes, by its name; `None` for a name that is not known.
pub fn parse_gpu_math(name: &str) -> (r: Option<GpuMath>)
    ensures
        r == if name@ == "exact"@ {
            Some(GpuMath::Exact)
        } else if name@ == "fast"@ {
            Some(GpuMath::Fast)
        } else {
            None
        },
{
    if same_text(name, "exact") {
        Some(GpuMath::Exact)
    } else if same_text(name, "fast") {
        Some(GpuMath::Fast)
    } else {
        None
    }
}

/// Why a device name is refused.
#[derive(Clone, Copy, Debug, PartialEq, Eq, Structural)]
pub enum DeviceError {
    /// `cuda:` is not followed by a number.
    NotANumber,
    Unknown,
}

/// The start of a device name that goes on with a number.
pub open spec fn numbered() -> Seq<char> {
    seq!['c', 'u', 'd', 'a', ':']
}

/// The device that a name stands for: no device, which is the host, or a device number.
pub open spec fn device_of(name: Option<Seq<char>>) -> Result<Option<usize>, DeviceError> {
    match name {
        None => Ok(None),
        Some(n) => if n == "cpu"@ {
            Ok(None)
        } else if n == "cuda"@ || n == "gpu"@ {
            Ok(Some(0))
        } else if numbered().is_prefix_of(n) {
            match crate::text::parsed_usize(n.skip(5)) {
                Some(d) => Ok(Some(d)),
                None => Err(DeviceError::NotANumber),
            }
        } else {
            Err(DeviceError::Unknown)
        },
    }
}

/// Devices are told by their numbers: `cuda:` and a number is the device of that number, for every
/// number; `cuda` and `gpu` are the first device; `cpu` and no name are no device.
pub proof fn law_every_device_has_a_name(d: usize)
    ensures
        device_of(Some(seq!['c', 'u', 'd', 'a', ':'] + crate::report::decimal(d as nat))) == Ok::<
            Option<usize>,
            DeviceError,
        >(Some(d)),
        device_of(Some("cuda"@)) == Ok::<Option<usize>, DeviceError>(Some(0)),
        device_of(Some("gpu"@)) == Ok::<Option<usize>, DeviceError>(Some(0)),
        device_of(Some("cpu"@)) == Ok::<Option<usize>, DeviceError>(None),
        device_of(None) == Ok::<Option<usize>, DeviceError>(None),
{
    let head = seq!['c', 'u', 'd', 'a', ':'];
    let digits = crate::report::decimal(d as nat);
    let n = head + digits;
    reveal_strlit("cpu");
    reveal_strlit("cuda");
    reveal_strlit("gpu");
    assert(n[4] == ':');
    assert("cuda"@[0] == 'c' && "cuda"@[1] == 'u' && "cpu"@[1] == 'p' && "gpu"@[0] == 'g');
    assert(n.len() >= 5 && "cpu"@.len() == 3 && "cuda"@.len() == 4 && "gpu"@.len() == 3);
    assert(n.subrange(0, 5) =~= head);
    assert(numbered().is_prefix_of(n));
    assert(n.skip(5) =~= digits);
    crate::report::lemma_decimal(d as nat);
    assert(crate::text::is_digit(digits[0]));
    assert(crate::text::unsigned_part(digits) == digits);
    assert(crate::text::parsed_usize(digits) == Some(d));
    assert(n != "cpu"@ && n != "cuda"@ && n != "gpu"@);
}

/// The device that a name stands for.
pub fn parse_device(name: Option<&str>) -> (r: Result<Option<usize>, DeviceError>)
    ensures
        r == device_of(
            match name {
                None => None,
                Some(n) => Some(n@),
            },
        ),
{
    let n: &str = match name {
        None => {
            return Ok(None);
        },
        Some(n) => n,
    };
    if same_text(n, "cpu") {
        return Ok(None);
    }
    if same_text(n, "cuda") || same_text(n, "gpu") {
        return Ok(Some(0));
    }
    let chars: Vec<char> = to_chars(n);
    let len: usize = chars.len();
    if len >= 5 && chars[0] == 'c' && chars[1] == 'u' && chars[2] == 'd' && chars[3] == 'a'
        && chars[4] == ':' {
        assert(numbered().is_prefix_of(n@)) by {
            assert(n@.subrange(0, 5) =~= numbered());
        }
        let rest: &[char] = slice_subrange(chars.as_slice(), 5, len);
        assert(rest@ =~= n@.skip(5));
        match parse_usize(rest) {
            Some(d) => Ok(Some(d)),
            None => Err(DeviceError::NotANumber),
        }
    } else {
        proof {
            if numbered().is_prefix_of(n@) {
                let head = n@.subrange(0, 5);
                assert(head == numbered());
                assert(head[0] == n@[0] && head[1] == n@[1] && head[2] == n@[2] && head[3] == n@[3]
                    && head[4] == n@[4]);
            }
        }
        Err(DeviceError::Unknown)
    }
}

/// What a caller gave as input, and what it can be read as.
pub struct InputArg {
    /// It is a matrix of numbers.
    pub is_matrix: bool,
    pub text: Option<String>,
    pub texts: Option<Vec<String>>,
    /// Its items, where it can be gone through: the path that an item stands for, if it does.
    pub items: Option<Vec<Option<String>>>,
    /// The path that it stands for itself.
    pub path: Option<String>,
}

/// Paths as sequences.
pub open spec fn texts_in(v: Seq<String>) -> Seq<Seq<char>> {
    v.map_values(|s: String| s@)
}

/// Every item stands for a path.
pub open spec fn all_paths(items: Seq<Option<String>>) -> bool {
    forall|i: int| 0 <= i < items.len() ==> (#[trigger] items[i]) is Some
}

/// The paths that an input stands for. A matrix is never a path, though it can be gone through;
/// a list of texts or of paths has to have some; what is no path in any way is left to others.
pub open spec fn specs_of(a: InputArg) -> Option<Seq<Seq<char>>> {
    if a.is_matrix {
        None
    } else if a.text is Some {
        Some(seq![a.text->0@])
    } else if a.texts is Some && a.texts->0@.len() > 0 {
        Some(texts_in(a.texts->0@))
    } else if a.items is Some && a.items->0@.len() > 0 && all_paths(a.items->0@) {
        Some(a.items->0@.map_values(|o: Option<String>| o->0@))
    } else if a.path is Some {
        Some(seq![a.path->0@])
    } else {
        None
    }
}

fn one(s: String) -> (r: Vec<String>)
    ensures
        texts_in(r@) == seq![s@],
{
    let mut r: Vec<String> = Vec::new();
    r.push(s);
    assert(texts_in(r@) =~= seq![s@]);
    r
}

/// The paths of items, if each stands for one.
fn item_paths(items: &Vec<Option<String>>) -> (r: Option<Vec<String>>)
    ensures
        match r {
            Some(v) => all_paths(items@) && texts_in(v@) == items@.map_values(
                |o: Option<String>| o->0@,
            ),
            None => !all_paths(items@),
        },
{
    let mut v: Vec<String> = Vec::new();
    let mut i: usize = 0;
    while i < items.len()
        invariant
            i <= items@.len(),
            v@.len() == i,
            forall|k: int| 0 <= k < i ==> (#[trigger] items@[k]) is Some,
            forall|k: int| 0 <= k < i ==> (#[trigger] v@[k])@ == items@[k]->0@,
        decreases items.len() - i,
    {
        match &items[i] {
            Some(s) => {
                v.push(s.clone());
            },
            None => {
                assert(!(items@[i as int] is Some));
                return None;
            },
        }
        i += 1;
    }
    assert(texts_in(v@) =~= items@.map_values(|o: Option<String>| o->0@));
    Some(v)
}

/// The paths that an input stands for.
pub fn path_specs_of(a: InputArg) -> (r: Option<Vec<String>>)
    ensures
        match r {
            Some(v) => specs_of(a) == Some(texts_in(v@)),
            None => specs_of(a) is None,
        },
{
    if a.is_matrix {
        return None;
    }
    if let Some(s) = a.text {
        return Some(one(s));
    }
    if let Some(list) = a.texts {
        if list.len() > 0 {
            return Some(list);
        }
    }
    if let Some(items) = &a.items {
        if items.len() > 0 {
            if let Some(paths) = item_paths(items) {
                return Some(paths);
            }
        }
    }
    match a.path {
        Some(s) => Some(one(s)),
        None => None,
    }
}

} // verus!
