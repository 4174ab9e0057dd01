//! How long the stages of opening a source take, and what they read.
//!
//! What the system says of the process comes in as text and as numbers.
use vstd::prelude::*;
use vstd::slice::slice_subrange;
use vstd::string::*;

use crate::text::{is_space_char, parse_u64, same_text, to_chars};

verus! {

/// The end of the line that starts at `i`.
pub open spec fn line_end(s: Seq<char>, i: int) -> int
    decreases s.len() - i,
{
    if i < 0 || i >= s.len() || s[i] == '\n' {
        i
    } else {
        line_end(s, i + 1)
    }
}

/// The start of the first word from `i` on.
pub open spec fn word_start(s: Seq<char>, i: int) -> int
    decreases s.len() - i,
{
    if 0 <= i < s.len() && crate::text::is_space(s[i]) {
        word_start(s, i + 1)
    } else {
        i
    }
}

/// The end of the word that starts at `i`.
pub open spec fn word_end(s: Seq<char>, i: int) -> int
    decreases s.len() - i,
{
    if 0 <= i < s.len() && !crate::text::is_space(s[i]) {
        word_end(s, i + 1)
    } else {
        i
    }
}

/// The first word from `i` on; empty where there is none.
pub open spec fn word(s: Seq<char>, i: int) -> Seq<char> {
    s.subrange(word_start(s, i), word_end(s, word_start(s, i)))
}

proof fn lemma_line_end(s: Seq<char>, i: int)
    requires
        0 <= i <= s.len(),
    ensures
        i <= line_end(s, i) <= s.len(),
    decreases s.len() - i,
{
    if i < s.len() && s[i] != '\n' {
        lemma_line_end(s, i + 1);
    }
}

proof fn lemma_word(s: Seq<char>, i: int)
    requires
        0 <= i <= s.len(),
    ensures
        i <= word_start(s, i) <= s.len(),
        i <= word_end(s, i) <= s.len(),
    decreases s.len() - i,
{
    if i < s.len() {
        lemma_word(s, i + 1);
    }
}

fn find_line_end(s: &[char], i: usize) -> (r: usize)
    requires
        i <= s@.len(),
    ensures
        r == line_end(s@, i as int),
        i <= r <= s@.len(),
{
    let n: usize = s.len();
    let mut k: usize = i;
    while k < n && s[k] != '\n'
        invariant
            n == s@.len(),
            i <= k <= n,
            line_end(s@, i as int) == line_end(s@, k as int),
        decreases n - k,
    {
        k += 1;
    }
    k
}

/// The first word from `i` on.
fn find_word(s: &[char], i: usize) -> (r: (usize, usize))
    requires
        i <= s@.len(),
    ensures
        r.0 == word_start(s@, i as int),
        r.1 == word_end(s@, word_start(s@, i as int)),
        i <= r.0 <= r.1 <= s@.len(),
        s@.subrange(r.0 as int, r.1 as int) == word(s@, i as int),
{
    let n: usize = s.len();
    let mut a: usize = i;
    while a < n && is_space_char(s[a])
        invariant
            n == s@.len(),
            i <= a <= n,
            word_start(s@, i as int) == word_start(s@, a as int),
        decreases n - a,
    {
        a += 1;
    }
    let mut b: usize = a;
    while b < n && !is_space_char(s[b])
        invariant
            n == s@.len(),
            a <= b <= n,
            word_end(s@, a as int) == word_end(s@, b as int),
        decreases n - b,
    {
        b += 1;
    }
    (a, b)
}

/// The first word of what follows a key at the start of the line from `i` on.
pub open spec fn keyed_word(s: Seq<char>, key: Seq<char>, i: int) -> Option<Seq<char>> {
    let line = s.subrange(i, line_end(s, i));
    if key.is_prefix_of(line) {
        Some(word(line, key.len() as int))
    } else {
        None
    }
}

/// The number behind a key, in the first line from `i` on that starts with the key: zero where
/// there is no such line or no number.
pub open spec fn first_number(s: Seq<char>, key: Seq<char>, i: int) -> u64
    decreases s.len() + 1 - i,
    when 0 <= i
    via first_number_decreases
{
    if i >= s.len() {
        0
    } else {
        match keyed_word(s, key, i) {
            Some(w) => match crate::text::parsed_u64(w) {
                Some(v) => v,
                None => 0,
            },
            None => first_number(s, key, line_end(s, i) + 1),
        }
    }
}

#[via_fn]
proof fn first_number_decreases(s: Seq<char>, key: Seq<char>, i: int) {
    if i < s.len() {
        lemma_line_end(s, i);
    }
}

/// The number behind a key in the first line from `i` on that starts with the key and has one.
pub open spec fn some_number(s: Seq<char>, key: Seq<char>, i: int) -> Option<u64>
    decreases s.len() + 1 - i,
    when 0 <= i
    via some_number_decreases
{
    if i >= s.len() {
        None
    } else {
        match keyed_word(s, key, i) {
            Some(w) => match crate::text::parsed_u64(w) {
                Some(v) => Some(v),
                None => some_number(s, key, line_end(s, i) + 1),
            },
            None => some_number(s, key, line_end(s, i) + 1),
        }
    }
}

#[via_fn]
proof fn some_number_decreases(s: Seq<char>, key: Seq<char>, i: int) {
    if i < s.len() {
        lemma_line_end(s, i);
    }
}

/// Does the line start with the key?
fn starts_with(line: &[char], key: &[char]) -> (r: bool)
    ensures
        r == key@.is_prefix_of(line@),
{
    let n: usize = key.len();
    if n > line.len() {
        return false;
    }
    let mut i: usize = 0;
    while i < n
        invariant
            n == key@.len(),
            n <= line@.len(),
            i <= n,
            forall|k: int| 0 <= k < i ==> key@[k] == line@[k],
        decreases n - i,
    {
        if key[i] != line[i] {
            assert(line@.subrange(0, n as int)[i as int] == line@[i as int]);
            return false;
        }
        i += 1;
    }
    assert(line@.subrange(0, n as int) =~= key@);
    true
}

/// The word behind a key at the start of the line from `at` to `end`, as a number.
fn number_in_line(s: &[char], key: &[char], at: usize, end: usize) -> (r: Option<Option<u64>>)
    requires
        at <= end <= s@.len(),
        end == line_end(s@, at as int),
    ensures
        r == match keyed_word(s@, key@, at as int) {
            None => None::<Option<u64>>,
            Some(w) => Some(crate::text::parsed_u64(w)),
        },
{
    let line: &[char] = slice_subrange(s, at, end);
    if !starts_with(line, key) {
        return None;
    }
    let (a, b) = find_word(line, key.len());
    let w: &[char] = slice_subrange(line, a, b);
    Some(parse_u64(w))
}

/// The number behind a key in a text of lines, such as `rchar: 12`: of the first line that starts
/// with the key, or zero.
pub fn read_kv(text: &str, key: &str) -> (r: u64)
    ensures
        r == first_number(text@, key@, 0),
{
    let s: Vec<char> = to_chars(text);
    let k: Vec<char> = to_chars(key);
    let n: usize = s.len();
    let mut i: usize = 0;
    while i < n
        invariant
            n == s@.len(),
            i <= n,
            s@ == text@,
            k@ == key@,
            first_number(s@, k@, 0) == first_number(s@, k@, i as int),
        decreases n - i,
    {
        let end: usize = find_line_end(s.as_slice(), i);
        match number_in_line(s.as_slice(), k.as_slice(), i, end) {
            Some(v) => {
                return match v {
                    Some(x) => x,
                    None => 0,
                };
            },
            None => {},
        }
        if end >= n {
            assert(first_number(s@, k@, end + 1) == 0);
            return 0;
        }
        i = end + 1;
    }
    0
}

/// The number behind a key in a text of lines: of the first line that starts with the key and
/// has a number there.
pub fn find_number(text: &str, key: &str) -> (r: Option<u64>)
    ensures
        r == some_number(text@, key@, 0),
{
    let s: Vec<char> = to_chars(text);
    let k: Vec<char> = to_chars(key);
    let n: usize = s.len();
    let mut i: usize = 0;
    while i < n
        invariant
            n == s@.len(),
            i <= n,
            s@ == text@,
            k@ == key@,
            some_number(s@, k@, 0) == some_number(s@, k@, i as int),
        decreases n - i,
    {
        let end: usize = find_line_end(s.as_slice(), i);
        match number_in_line(s.as_slice(), k.as_slice(), i, end) {
            Some(v) => match v {
                Some(x) => {
                    return Some(x);
                },
                None => {},
            },
            None => {},
        }
        if end >= n {
            assert(some_number(s@, k@, end + 1) is None);
            return None;
        }
        i = end + 1;
    }
    None
}

/// Word number `k` from `i` on, as a number; zero where there is none.
pub open spec fn nth_number(s: Seq<char>, i: int, k: int) -> u64
    decreases k,
{
    if k <= 0 {
        match crate::text::parsed_u64(word(s, i)) {
            Some(v) => v,
            None => 0,
        }
    } else {
        nth_number(s, word_end(s, word_start(s, i)), k - 1)
    }
}

/// Behind the last closing bracket.
pub open spec fn after_bracket(s: Seq<char>, i: int) -> bool {
    &&& 0 < i <= s.len()
    &&& s[i - 1] == ')'
    &&& forall|k: int| i <= k < s.len() ==> (#[trigger] s[k]) != ')'
}

/// The processor time of a process, in clock ticks, out of its status line: words number 11 and 12
/// behind the name, which stands in brackets and may hold anything.
pub fn cpu_ticks(text: &str) -> (r: (u64, u64))
    ensures
        !text@.contains(')') ==> r == (0u64, 0u64),
        text@.contains(')') ==> exists|i: int| #[trigger]
            after_bracket(text@, i) && r == (nth_number(text@, i, 11), nth_number(text@, i, 12)),
{
    let s: Vec<char> = to_chars(text);
    let n: usize = s.len();
    let mut i: usize = n;
    while i > 0 && s[i - 1] != ')'
        invariant
            n == s@.len(),
            i <= n,
            forall|k: int| i <= k < n ==> (#[trigger] s@[k]) != ')',
        decreases i,
    {
        i -= 1;
    }
    if i == 0 {
        return (0, 0);
    }
    assert(s@[i - 1] == ')');
    assert(after_bracket(text@, i as int));
    let user: u64 = number_at(&s, i, 11);
    let system: u64 = number_at(&s, i, 12);
    (user, system)
}

fn number_at(s: &Vec<char>, from: usize, place: usize) -> (r: u64)
    requires
        from <= s@.len(),
    ensures
        r == nth_number(s@, from as int, place as int),
{
    let mut i: usize = from;
    let mut k: usize = place;
    while k > 0
        invariant
            i <= s@.len(),
            nth_number(s@, from as int, place as int) == nth_number(s@, i as int, k as int),
        decreases k,
    {
        let (a, b) = find_word(s.as_slice(), i);
        i = b;
        k -= 1;
    }
    let (a, b) = find_word(s.as_slice(), i);
    let w: &[char] = slice_subrange(s.as_slice(), a, b);
    match parse_u64(w) {
        Some(v) => v,
        None => 0,
    }
}

/// What a stage has cost so far.
#[derive(Clone, Copy, Debug, PartialEq, Eq, Structural)]
pub struct Bucket {
    pub wall_ns: u128,
    pub cpu_ticks: u64,
    pub rchar: u64,
    pub calls: usize,
    /// Memory of the process when the stage last ended, and the most it ever had by then.
    pub vmrss_kb: u64,
    pub vmhwm_kb: u64,
}

/// What the system says at a moment.
#[derive(Clone, Copy, Debug, PartialEq, Eq, Structural)]
pub struct Reading {
    pub wall_ns: u128,
    pub cpu_ticks: u64,
    pub rchar: u64,
    pub vmrss_kb: u64,
    pub vmhwm_kb: u64,
}

/// A stage that runs.
pub struct Guard {
    pub name: String,
    pub start: Reading,
}

/// A part of a stage that runs; only its time is taken.
pub struct Sub {
    pub name: String,
    pub start_ns: u128,
}

/// Starts a stage, where times are taken at all.
pub fn start(enabled: bool, name: String, now: Reading) -> (r: Option<Guard>)
    ensures
        r matches Some(g) ==> enabled && g.name == name && g.start == now,
        r is None ==> !enabled,
{
    if !enabled {
        return None;
    }
    Some(Guard { name, start: now })
}

/// Starts a part of a stage, where times are taken at all.
pub fn sub(enabled: bool, name: String, now_ns: u128) -> (r: Option<Sub>)
    ensures
        r matches Some(s) ==> enabled && s.name == name && s.start_ns == now_ns,
        r is None ==> !enabled,
{
    if !enabled {
        return None;
    }
    Some(Sub { name, start_ns: now_ns })
}

/// A stage and what it has cost.
pub struct Stage {
    pub name: String,
    pub cost: Bucket,
}

/// A part of a stage, the time it took and how often it ran.
pub struct SubStage {
    pub name: String,
    pub wall_ns: u128,
    pub calls: usize,
}

/// All stages, in the order in which they first ended.
pub struct OpenProfile {
    pub stages: Vec<Stage>,
    pub subs: Vec<SubStage>,
    pub shape: Option<(usize, usize, usize)>,
}

/// A stage with one more run.
pub open spec fn charged(b: Bucket, from: Reading, to: Reading) -> Bucket {
    Bucket {
        wall_ns: (b.wall_ns + (to.wall_ns - from.wall_ns)) as u128,
        cpu_ticks: (b.cpu_ticks + crate::math::imax(to.cpu_ticks - from.cpu_ticks, 0)) as u64,
        rchar: (b.rchar + crate::math::imax(to.rchar - from.rchar, 0)) as u64,
        calls: (b.calls + 1) as usize,
        vmrss_kb: to.vmrss_kb,
        vmhwm_kb: to.vmhwm_kb,
    }
}

/// Costs that can be added to a stage.
pub open spec fn fits(b: Bucket, from: Reading, to: Reading) -> bool {
    &&& from.wall_ns <= to.wall_ns
    &&& b.wall_ns + (to.wall_ns - from.wall_ns) <= u128::MAX
    &&& b.cpu_ticks + crate::math::imax(to.cpu_ticks - from.cpu_ticks, 0) <= u64::MAX
    &&& b.rchar + crate::math::imax(to.rchar - from.rchar, 0) <= u64::MAX
    &&& b.calls < usize::MAX
}

/// Runs that follow on each other cost together what one run over the same time costs; only that
/// they are counted one by one.
pub proof fn law_runs_in_a_row_cost_as_one(b: Bucket, x: Reading, y: Reading, z: Reading)
    requires
        fits(b, x, y),
        fits(charged(b, x, y), y, z),
        x.cpu_ticks <= y.cpu_ticks <= z.cpu_ticks,
        x.rchar <= y.rchar <= z.rchar,
    ensures
        ({
            let two = charged(charged(b, x, y), y, z);
            &&& two.wall_ns - b.wall_ns == z.wall_ns - x.wall_ns
            &&& two.cpu_ticks - b.cpu_ticks == z.cpu_ticks - x.cpu_ticks
            &&& two.rchar - b.rchar == z.rchar - x.rchar
            &&& two.calls == b.calls + 2
            &&& two.vmrss_kb == z.vmrss_kb && two.vmhwm_kb == z.vmhwm_kb
        }),
{
}

/// A stage of this name stands at `i`, and none before.
pub open spec fn stage_at(stages: Seq<Stage>, name: Seq<char>, i: int) -> bool {
    &&& 0 <= i < stages.len()
    &&& stages[i].name@ == name
    &&& forall|k: int| 0 <= k < i ==> (#[trigger] stages[k]).name@ != name
}

/// A part of this name stands at `i`, and none before.
pub open spec fn sub_at(subs: Seq<SubStage>, name: Seq<char>, i: int) -> bool {
    &&& 0 <= i < subs.len()
    &&& subs[i].name@ == name
    &&& forall|k: int| 0 <= k < i ==> (#[trigger] subs[k]).name@ != name
}

/// Nothing spent.
pub open spec fn nothing() -> Bucket {
    Bucket { wall_ns: 0, cpu_ticks: 0, rchar: 0, calls: 0, vmrss_kb: 0, vmhwm_kb: 0 }
}

/// The stage at `i` has one more run, and the others are as they were.
pub open spec fn stage_charged(
    before: Seq<Stage>,
    after: Seq<Stage>,
    i: int,
    from: Reading,
    to: Reading,
) -> bool {
    &&& after.len() == before.len()
    &&& after[i].name == before[i].name
    &&& after[i].cost == charged(before[i].cost, from, to)
    &&& forall|k: int| 0 <= k < before.len() && k != i ==> (#[trigger] after[k]) == before[k]
}

/// The stage of a name has one more run; a stage that was not there comes last.
pub open spec fn stages_charged(
    before: Seq<Stage>,
    after: Seq<Stage>,
    name: Seq<char>,
    from: Reading,
    to: Reading,
) -> bool {
    if exists|i: int| #[trigger] stage_at(before, name, i) {
        exists|i: int| #[trigger]
            stage_at(before, name, i) && stage_charged(before, after, i, from, to)
    } else {
        &&& after.len() == before.len() + 1
        &&& after.drop_last() == before
        &&& after.last().name@ == name
        &&& after.last().cost == charged(nothing(), from, to)
    }
}

/// The part of a name took so much time more; a part that was not there comes last.
pub open spec fn subs_charged(
    before: Seq<SubStage>,
    after: Seq<SubStage>,
    name: Seq<char>,
    ns: int,
) -> bool {
    if exists|i: int| #[trigger] sub_at(before, name, i) {
        exists|i: int| #[trigger]
            sub_at(before, name, i) && after.len() == before.len() && after[i].name
                == before[i].name && after[i].wall_ns == before[i].wall_ns + ns && after[i].calls
                == before[i].calls + 1 && forall|k: int|
                0 <= k < before.len() && k != i ==> (#[trigger] after[k]) == before[k]
    } else {
        &&& after.len() == before.len() + 1
        &&& after.drop_last() == before
        &&& after.last().name@ == name
        &&& after.last().wall_ns == ns
        &&& after.last().calls == 1
    }
}

impl OpenProfile {
    /// Nothing ran yet.
    pub fn new() -> (r: Self)
        ensures
            r.stages@.len() == 0,
            r.subs@.len() == 0,
            r.shape is None,
    {
        OpenProfile { stages: Vec::new(), subs: Vec::new(), shape: None }
    }

    /// Notes the shape of the data, where times are taken.
    pub fn shape(&mut self, enabled: bool, n_rows: usize, n_features: usize, n_blocks: usize)
        ensures
            final(self).stages == old(self).stages,
            final(self).subs == old(self).subs,
            final(self).shape == if enabled {
                Some((n_rows, n_features, n_blocks))
            } else {
                old(self).shape
            },
    {
        if enabled {
            self.shape = Some((n_rows, n_features, n_blocks));
        }
    }

    fn find_stage(&self, name: &String) -> (r: Option<usize>)
        ensures
            match r {
                Some(i) => stage_at(self.stages@, name@, i as int),
                None => forall|k: int|
                    0 <= k < self.stages@.len() ==> (#[trigger] self.stages@[k]).name@ != name@,
            },
    {
        let mut i: usize = 0;
        while i < self.stages.len()
            invariant
                i <= self.stages@.len(),
                forall|k: int| 0 <= k < i ==> (#[trigger] self.stages@[k]).name@ != name@,
            decreases self.stages.len() - i,
        {
            if same_text(self.stages[i].name.as_str(), name.as_str()) {
                return Some(i);
            }
            i += 1;
        }
        None
    }

    /// Ends a stage: what it cost goes to the stage of its name.
    pub fn finish(&mut self, guard: Guard, now: Reading)
        requires
            forall|i: int|
                stage_at(old(self).stages@, guard.name@, i) ==> fits(
                    (#[trigger] old(self).stages@[i]).cost,
                    guard.start,
                    now,
                ),
            fits(nothing(), guard.start, now),
        ensures
            final(self).subs == old(self).subs,
            final(self).shape == old(self).shape,
            stages_charged(old(self).stages@, final(self).stages@, guard.name@, guard.start, now),
    {
        let ghost before = self.stages@;
        match self.find_stage(&guard.name) {
            Some(i) => {
                assert(stage_at(before, guard.name@, i as int));
                assert(fits(before[i as int].cost, guard.start, now));
                let old_cost: Bucket = self.stages[i].cost;
                let cost: Bucket = add_run(old_cost, guard.start, now);
                let mut taken: Stage = Stage {
                    name: String::new(),
                    cost: Bucket {
                        wall_ns: 0,
                        cpu_ticks: 0,
                        rchar: 0,
                        calls: 0,
                        vmrss_kb: 0,
                        vmhwm_kb: 0,
                    },
                };
                self.stages.set_and_swap(i, &mut taken);
                taken.cost = cost;
                self.stages.set(i, taken);
                assert(stage_charged(before, self.stages@, i as int, guard.start, now));
            },
            None => {
                proof {
                    assert forall|i: int| !#[trigger] stage_at(before, guard.name@, i) by {
                        if stage_at(before, guard.name@, i) {
                            assert(before[i].name@ != guard.name@);
                        }
                    }
                }
                let zero: Bucket = Bucket {
                    wall_ns: 0,
                    cpu_ticks: 0,
                    rchar: 0,
                    calls: 0,
                    vmrss_kb: 0,
                    vmhwm_kb: 0,
                };
                let cost: Bucket = add_run(zero, guard.start, now);
                self.stages.push(Stage { name: guard.name, cost });
                assert(self.stages@.drop_last() =~= before);
            },
        }
    }

    /// Ends a part of a stage: its time goes to the part of its name.
    pub fn finish_sub(&mut self, part: Sub, now_ns: u128)
        requires
            part.start_ns <= now_ns,
            forall|i: int|
                sub_at(old(self).subs@, part.name@, i) ==> (#[trigger] old(self).subs@[i]).wall_ns
                    + (now_ns - part.start_ns) <= u128::MAX && old(self).subs@[i].calls
                    < usize::MAX,
        ensures
            final(self).stages == old(self).stages,
            final(self).shape == old(self).shape,
            subs_charged(
                old(self).subs@,
                final(self).subs@,
                part.name@,
                now_ns - part.start_ns,
            ),
    {
        let ghost before = self.subs@;
        let ns: u128 = now_ns - part.start_ns;
        let n: usize = self.subs.len();
        let mut i: usize = 0;
        while i < n && !same_text(self.subs[i].name.as_str(), part.name.as_str())
            invariant
                n == self.subs@.len(),
                self.subs@ == before,
                i <= n,
                forall|k: int| 0 <= k < i ==> (#[trigger] before[k]).name@ != part.name@,
            decreases n - i,
        {
            i += 1;
        }
        if i < n {
            assert(sub_at(before, part.name@, i as int));
            let mut taken: SubStage = SubStage { name: String::new(), wall_ns: 0, calls: 0 };
            self.subs.set_and_swap(i, &mut taken);
            assert(taken == before[i as int]);
            taken.wall_ns = taken.wall_ns + ns;
            taken.calls = taken.calls + 1;
            self.subs.set(i, taken);
        } else {
            proof {
                assert forall|q: int| !#[trigger] sub_at(before, part.name@, q) by {
                    if sub_at(before, part.name@, q) {
                        assert(before[q].name@ != part.name@);
                    }
                }
            }
            self.subs.push(SubStage { name: part.name, wall_ns: ns, calls: 1 });
            assert(self.subs@.drop_last() =~= before);
        }
    }
}

fn add_run(b: Bucket, from: Reading, to: Reading) -> (r: Bucket)
    requires
        fits(b, from, to),
    ensures
        r == charged(b, from, to),
{
    Bucket {
        wall_ns: b.wall_ns + (to.wall_ns - from.wall_ns),
        cpu_ticks: b.cpu_ticks + to.cpu_ticks.saturating_sub(from.cpu_ticks),
        rchar: b.rchar + to.rchar.saturating_sub(from.rchar),
        calls: b.calls + 1,
        vmrss_kb: to.vmrss_kb,
        vmhwm_kb: to.vmhwm_kb,
    }
}

} // verus!
