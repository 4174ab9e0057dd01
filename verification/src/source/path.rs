//! Paths as the parts between their separators, and the order that the parts give.
use vstd::prelude::*;

use crate::text::{same_chars, to_chars, to_lower};

verus! {

/// How a system writes paths. On Windows a backslash separates parts as a slash does, and a path
/// may lead with a drive or a share. Nothing is said of the prefixes that hand a path to the
/// system as it stands.
#[derive(Clone, Copy, Debug, PartialEq, Eq, Structural)]
pub enum PathStyle {
    Unix,
    Windows,
}

/// One part of a path. Parts of different kinds are ordered as they stand here.
pub enum PathPart {
    /// A share, by the names of its server and itself.
    Share(Vec<char>, Vec<char>),
    /// A drive, by its letter in lower case.
    Drive(char),
    /// The root that an absolute path starts with.
    Root,
    /// A leading `.`.
    Current,
    /// A `..`.
    Parent,
    Name(Vec<char>),
}

/// One part of a path, as text.
pub enum Part {
    Share(Seq<char>, Seq<char>),
    Drive(char),
    Root,
    Current,
    Parent,
    Name(Seq<char>),
}

impl PathPart {
    /// The part as text.
    pub open spec fn view(&self) -> Part {
        match self {
            PathPart::Share(server, share) => Part::Share(server@, share@),
            PathPart::Drive(d) => Part::Drive(*d),
            PathPart::Root => Part::Root,
            PathPart::Current => Part::Current,
            PathPart::Parent => Part::Parent,
            PathPart::Name(n) => Part::Name(n@),
        }
    }
}

/// A character that separates parts.
pub open spec fn is_separator(c: char, style: PathStyle) -> bool {
    c == '/' || (style == PathStyle::Windows && c == '\\')
}

/// An ASCII letter.
pub open spec fn is_letter(c: char) -> bool {
    'a' <= crate::text::lower(c) <= 'z'
}

/// The drive that a path leads with: a letter and a colon, in the Windows style.
pub open spec fn drive(s: Seq<char>, style: PathStyle) -> Option<char> {
    if style == PathStyle::Windows && s.len() >= 2 && s[1] == ':' && is_letter(s[0]) {
        Some(crate::text::lower(s[0]))
    } else {
        None
    }
}

/// What follows the drive.
pub open spec fn undriven(s: Seq<char>, style: PathStyle) -> Seq<char> {
    if drive(s, style) is Some {
        s.skip(2)
    } else {
        s
    }
}

/// The text between separators.
pub open spec fn pieces(s: Seq<char>, style: PathStyle) -> Seq<Seq<char>>
    decreases s.len(),
{
    if s.len() == 0 {
        seq![Seq::<char>::empty()]
    } else {
        let rest = pieces(s.drop_last(), style);
        if is_separator(s.last(), style) {
            rest.push(Seq::<char>::empty())
        } else {
            rest.drop_last().push(rest.last().push(s.last()))
        }
    }
}

/// The part that piece number `i` stands for, if any: empty pieces and a `.` that does not
/// lead a relative path are left out.
pub open spec fn part_of(piece: Seq<char>, i: int, rooted: bool) -> Option<Part> {
    if piece.len() == 0 {
        None
    } else if piece == seq!['.'] {
        if i == 0 && !rooted {
            Some(Part::Current)
        } else {
            None
        }
    } else if piece == seq!['.', '.'] {
        Some(Part::Parent)
    } else {
        Some(Part::Name(piece))
    }
}

/// The parts of the first `k` pieces, behind those that the path leads with.
pub open spec fn parts_upto(p: Seq<Seq<char>>, lead: Seq<Part>, rooted: bool, k: int) -> Seq<Part>
    decreases k,
{
    if k <= 0 {
        lead
    } else {
        let rest = parts_upto(p, lead, rooted, k - 1);
        match part_of(p[k - 1], k - 1, rooted) {
            Some(part) => rest.push(part),
            None => rest,
        }
    }
}

/// A path, without its drive, that starts at the root.
pub open spec fn is_rooted(s: Seq<char>, style: PathStyle) -> bool {
    s.len() > 0 && is_separator(s[0], style)
}

/// A path that leads with a share, in the Windows style: two separators, the name of a server, one
/// separator and the name of a share. The pieces before the server's name are empty.
pub open spec fn is_shared(s: Seq<char>, style: PathStyle) -> bool {
    let p = pieces(s, style);
    style == PathStyle::Windows && p.len() >= 4 && p[0].len() == 0 && p[1].len() == 0
        && p[2].len() > 0 && p[3].len() > 0
}

/// The share or drive, and the root, that a path leads with. What a share leads is rooted.
pub open spec fn lead_of(s: Seq<char>, style: PathStyle) -> Seq<Part> {
    if is_shared(s, style) {
        let p = pieces(s, style);
        seq![Part::Share(p[2], p[3]), Part::Root]
    } else {
        (match drive(s, style) {
            Some(d) => seq![Part::Drive(d)],
            None => seq![],
        }) + if is_rooted(undriven(s, style), style) {
            seq![Part::Root]
        } else {
            seq![]
        }
    }
}

/// The parts of a path.
pub open spec fn parts(s: Seq<char>, style: PathStyle) -> Seq<Part> {
    if is_shared(s, style) {
        let p = pieces(s, style).skip(4);
        parts_upto(p, lead_of(s, style), true, p.len() as int)
    } else {
        let rest = undriven(s, style);
        let p = pieces(rest, style);
        parts_upto(p, lead_of(s, style), is_rooted(rest, style), p.len() as int)
    }
}

/// The parts as text.
pub open spec fn views(v: Seq<PathPart>) -> Seq<Part> {
    v.map_values(|p: PathPart| p.view())
}

/// The last part of a path, where that is a name.
pub open spec fn file_name(s: Seq<char>, style: PathStyle) -> Option<Seq<char>> {
    let p = parts(s, style);
    if p.len() > 0 && p.last() is Name {
        Some(p.last()->Name_0)
    } else {
        None
    }
}

proof fn lemma_pieces_some(s: Seq<char>, style: PathStyle)
    ensures
        pieces(s, style).len() > 0,
{
}

proof fn lemma_pieces_of_two(s: Seq<char>, sep: char, t: Seq<char>, style: PathStyle)
    requires
        is_separator(sep, style),
    ensures
        pieces(s + seq![sep] + t, style) == pieces(s, style) + pieces(t, style),
    decreases t.len(),
{
    let all = s + seq![sep] + t;
    lemma_pieces_some(s, style);
    if t.len() == 0 {
        assert(all =~= s.push(sep));
        assert(all.drop_last() =~= s);
        assert(pieces(t, style) == seq![Seq::<char>::empty()]);
        assert(pieces(all, style) =~= pieces(s, style) + pieces(t, style));
    } else {
        let front = t.drop_last();
        assert(all.drop_last() =~= s + seq![sep] + front);
        assert(all.last() == t.last());
        lemma_pieces_of_two(s, sep, front, style);
        lemma_pieces_some(front, style);
        let a = pieces(s, style);
        let b = pieces(front, style);
        assert((a + b).last() == b.last());
        assert((a + b).drop_last() =~= a + b.drop_last());
        assert(pieces(all, style) =~= a + pieces(t, style));
    }
}

proof fn lemma_one_piece(t: Seq<char>, style: PathStyle)
    requires
        forall|i: int| 0 <= i < t.len() ==> !is_separator(#[trigger] t[i], style),
    ensures
        pieces(t, style) == seq![t],
    decreases t.len(),
{
    if t.len() == 0 {
        assert(t =~= Seq::<char>::empty());
    } else {
        let front = t.drop_last();
        assert forall|i: int| 0 <= i < front.len() implies !is_separator(
            #[trigger] front[i],
            style,
        ) by {
            assert(front[i] == t[i]);
        }
        lemma_one_piece(front, style);
        assert(!is_separator(t[t.len() - 1], style));
        assert(front.push(t.last()) =~= t);
        assert(pieces(t, style) =~= seq![t]);
    }
}

proof fn lemma_parts_of_more_pieces(
    p: Seq<Seq<char>>,
    q: Seq<Seq<char>>,
    lead: Seq<Part>,
    rooted: bool,
    k: int,
)
    requires
        0 <= k <= p.len(),
    ensures
        parts_upto(p + q, lead, rooted, k) == parts_upto(p, lead, rooted, k),
    decreases k,
{
    if k > 0 {
        lemma_parts_of_more_pieces(p, q, lead, rooted, k - 1);
        assert((p + q)[k - 1] == p[k - 1]);
    }
}

/// A name behind a path is one part more, and the name of the file; a separator or a `.` at the end
/// of a path changes nothing, and a `..` goes up a part.
pub proof fn law_a_name_behind_a_path_is_its_last_part(s: Seq<char>, name: Seq<char>)
    requires
        s.len() > 0,
        forall|i: int| 0 <= i < name.len() ==> #[trigger] name[i] != '/',
    ensures
        ({
            let all = s + seq!['/'] + name;
            let before = parts(s, PathStyle::Unix);
            let after = parts(all, PathStyle::Unix);
            if name.len() == 0 || name == seq!['.'] {
                after == before
            } else if name == seq!['.', '.'] {
                after == before.push(Part::Parent)
            } else {
                &&& after == before.push(Part::Name(name))
                &&& file_name(all, PathStyle::Unix) == Some(name)
            }
        }),
{
    let style = PathStyle::Unix;
    let all = s + seq!['/'] + name;
    assert forall|i: int| 0 <= i < name.len() implies !is_separator(#[trigger] name[i], style) by {
        assert(name[i] != '/');
    }
    lemma_pieces_of_two(s, '/', name, style);
    lemma_one_piece(name, style);
    lemma_pieces_some(s, style);
    let p = pieces(s, style);
    let q = pieces(all, style);
    assert(q == p + seq![name]);
    assert(all[0] == s[0]);
    let rooted = is_rooted(s, style);
    let lead = lead_of(s, style);
    assert(lead_of(all, style) == lead);
    let n = p.len() as int;
    lemma_parts_of_more_pieces(p, seq![name], lead, rooted, n);
    assert(q[n] == name);
    assert(undriven(s, style) == s && undriven(all, style) == all);
    assert(parts(all, style) == parts_upto(q, lead, rooted, n + 1));
    assert(parts(s, style) == parts_upto(p, lead, rooted, n));
}

fn separates(c: char, style: PathStyle) -> (r: bool)
    ensures
        r == is_separator(c, style),
{
    match style {
        PathStyle::Unix => c == '/',
        PathStyle::Windows => c == '/' || c == '\\',
    }
}

/// Cuts a text at its separators.
fn split(s: &[char], style: PathStyle) -> (r: Vec<Vec<char>>)
    ensures
        r@.map_values(|v: Vec<char>| v@) == pieces(s@, style),
{
    let mut done: Vec<Vec<char>> = Vec::new();
    let mut cur: Vec<char> = Vec::new();
    let mut i: usize = 0;
    proof {
        assert(s@.take(0) =~= Seq::<char>::empty());
        assert(done@.map_values(|v: Vec<char>| v@).push(cur@) =~= pieces(s@.take(0), style));
    }
    while i < s.len()
        invariant
            i <= s@.len(),
            done@.map_values(|v: Vec<char>| v@).push(cur@) == pieces(s@.take(i as int), style),
        decreases s.len() - i,
    {
        let c: char = s[i];
        let ghost before = done@.map_values(|v: Vec<char>| v@);
        let ghost cur_before = cur@;
        let ghost next = s@.take(i + 1);
        proof {
            assert(next.drop_last() =~= s@.take(i as int));
            assert(next.last() == c);
            assert(before.push(cur_before).drop_last() =~= before);
            assert(before.push(cur_before).last() == cur_before);
        }
        if separates(c, style) {
            done.push(cur);
            cur = Vec::new();
            proof {
                assert(done@.map_values(|v: Vec<char>| v@) =~= before.push(cur_before));
                assert(cur@ =~= Seq::<char>::empty());
            }
        } else {
            cur.push(c);
        }
        i += 1;
    }
    let ghost before = done@.map_values(|v: Vec<char>| v@);
    let ghost last = cur@;
    done.push(cur);
    proof {
        assert(done@.map_values(|v: Vec<char>| v@) =~= before.push(last));
        assert(s@.take(i as int) =~= s@);
    }
    done
}

/// The parts of a path.
pub fn path_parts(s: &[char], style: PathStyle) -> (r: Vec<PathPart>)
    ensures
        views(r@) == parts(s@, style),
{
    let windows: bool = match style {
        PathStyle::Unix => false,
        PathStyle::Windows => true,
    };
    let all: Vec<Vec<char>> = split(s, style);
    let ghost p = pieces(s@, style);
    assert(all@.map_values(|v: Vec<char>| v@).len() == all@.len());
    if windows && all.len() >= 4 {
        assert(all@[0]@ == p[0]);
        assert(all@[1]@ == p[1]);
        assert(all@[2]@ == p[2]);
        assert(all@[3]@ == p[3]);
        if all[0].len() == 0 && all[1].len() == 0 && all[2].len() > 0 && all[3].len() > 0 {
            let mut lead: Vec<PathPart> = Vec::new();
            let server: Vec<char> = copy_chars(all[2].as_slice());
            let share: Vec<char> = copy_chars(all[3].as_slice());
            lead.push(PathPart::Share(server, share));
            lead.push(PathPart::Root);
            assert(views(lead@) =~= lead_of(s@, style));
            assert(p.skip(0) =~= p);
            return behind(&all, 4, lead, true);
        }
    }
    let mut lead: Vec<PathPart> = Vec::new();
    let driven: bool = match style {
        PathStyle::Unix => false,
        PathStyle::Windows => s.len() >= 2 && s[1] == ':' && 'a' <= to_lower(s[0]) && to_lower(s[0])
            <= 'z',
    };
    let rest: Vec<char> = if driven {
        lead.push(PathPart::Drive(to_lower(s[0])));
        chars_from(s, 2)
    } else {
        copy_chars(s)
    };
    assert(rest@ == undriven(s@, style));
    let rooted: bool = rest.len() > 0 && separates(rest[0], style);
    let ps: Vec<Vec<char>> = split(rest.as_slice(), style);
    if rooted {
        lead.push(PathPart::Root);
    }
    assert(views(lead@) =~= lead_of(s@, style));
    assert(pieces(rest@, style).skip(0) =~= pieces(rest@, style));
    behind(&ps, 0, lead, rooted)
}

/// The parts of the pieces from number `from` on, behind those that the path leads with.
fn behind(ps: &Vec<Vec<char>>, from: usize, lead: Vec<PathPart>, rooted: bool) -> (r: Vec<PathPart>)
    requires
        from <= ps@.len(),
    ensures
        views(r@) == parts_upto(
            ps@.map_values(|v: Vec<char>| v@).skip(from as int),
            views(lead@),
            rooted,
            ps@.len() - from,
        ),
{
    let ghost p = ps@.map_values(|v: Vec<char>| v@).skip(from as int);
    let ghost led = views(lead@);
    let mut r: Vec<PathPart> = lead;
    let dot: [char; 1] = ['.'];
    let dots: [char; 2] = ['.', '.'];
    let mut i: usize = from;
    while i < ps.len()
        invariant
            from <= i <= ps@.len(),
            p == ps@.map_values(|v: Vec<char>| v@).skip(from as int),
            dot@ == seq!['.'],
            dots@ == seq!['.', '.'],
            views(r@) == parts_upto(p, led, rooted, i - from),
        decreases ps.len() - i,
    {
        let piece: &Vec<char> = &ps[i];
        let ghost before = r@;
        assert(piece@ == p[i - from]);
        if piece.len() > 0 {
            if same_chars(piece.as_slice(), dot.as_slice()) {
                if i == from && !rooted {
                    r.push(PathPart::Current);
                    assert(views(r@) =~= views(before).push(Part::Current));
                }
            } else if same_chars(piece.as_slice(), dots.as_slice()) {
                r.push(PathPart::Parent);
                assert(views(r@) =~= views(before).push(Part::Parent));
            } else {
                let name: Vec<char> = copy_chars(piece.as_slice());
                r.push(PathPart::Name(name));
                assert(views(r@) =~= views(before).push(Part::Name(p[i - from])));
            }
        }
        i += 1;
    }
    r
}

/// The characters from number `from` on.
fn chars_from(s: &[char], from: usize) -> (r: Vec<char>)
    requires
        from <= s@.len(),
    ensures
        r@ == s@.skip(from as int),
{
    let mut r: Vec<char> = Vec::new();
    let mut i: usize = from;
    while i < s.len()
        invariant
            from <= i <= s@.len(),
            r@ == s@.subrange(from as int, i as int),
        decreases s.len() - i,
    {
        r.push(s[i]);
        assert(s@.subrange(from as int, i + 1) =~= s@.subrange(from as int, i as int).push(
            s@[i as int],
        ));
        i += 1;
    }
    assert(r@ =~= s@.skip(from as int));
    r
}

/// A copy of characters.
pub fn copy_chars(s: &[char]) -> (r: Vec<char>)
    ensures
        r@ == s@,
{
    let mut r: Vec<char> = Vec::new();
    let mut i: usize = 0;
    while i < s.len()
        invariant
            i <= s@.len(),
            r@ == s@.take(i as int),
        decreases s.len() - i,
    {
        r.push(s[i]);
        assert(s@.take(i + 1) =~= s@.take(i as int).push(s@[i as int]));
        i += 1;
    }
    assert(s@.take(i as int) =~= s@);
    r
}

/// The last part of a path, where that is a name.
pub fn name_of(path: &str, style: PathStyle) -> (r: Option<Vec<char>>)
    ensures
        match r {
            None => file_name(path@, style) is None,
            Some(n) => file_name(path@, style) == Some(n@),
        },
{
    let chars: Vec<char> = to_chars(path);
    let ps: Vec<PathPart> = path_parts(chars.as_slice(), style);
    let n: usize = ps.len();
    let ghost all = parts(path@, style);
    assert(views(ps@).len() == ps@.len());
    if n == 0 {
        return None;
    }
    assert(views(ps@)[n - 1] == ps@[n - 1].view());
    match &ps[n - 1] {
        PathPart::Name(name) => Some(copy_chars(name.as_slice())),
        _ => None,
    }
}

/// The order of names: the first character that differs decides, by its code point; a name
/// comes before any longer one that it starts.
pub open spec fn name_before(a: Seq<char>, b: Seq<char>) -> bool
    decreases a.len(),
{
    if b.len() == 0 {
        false
    } else if a.len() == 0 {
        true
    } else if a[0] == b[0] {
        name_before(a.skip(1), b.skip(1))
    } else {
        a[0] < b[0]
    }
}

/// The place of a part's kind in the order.
pub open spec fn rank(p: Part) -> int {
    match p {
        Part::Share(_, _) => 0,
        Part::Drive(_) => 1,
        Part::Root => 2,
        Part::Current => 3,
        Part::Parent => 4,
        Part::Name(_) => 5,
    }
}

/// The order of parts. Shares are ordered by their servers, and then by their own names.
pub open spec fn part_before(a: Part, b: Part) -> bool {
    if a is Name && b is Name {
        name_before(a->Name_0, b->Name_0)
    } else if a is Share && b is Share {
        name_before(a->Share_0, b->Share_0) || (a->Share_0 == b->Share_0 && name_before(
            a->Share_1,
            b->Share_1,
        ))
    } else if a is Drive && b is Drive {
        a->Drive_0 < b->Drive_0
    } else {
        rank(a) < rank(b)
    }
}

/// The order of paths: the first part that differs decides.
pub open spec fn path_before(a: Seq<Part>, b: Seq<Part>) -> bool
    decreases a.len(),
{
    if b.len() == 0 {
        false
    } else if a.len() == 0 {
        true
    } else if a[0] == b[0] {
        path_before(a.skip(1), b.skip(1))
    } else {
        part_before(a[0], b[0])
    }
}

proof fn lemma_name_order(a: Seq<char>, b: Seq<char>)
    ensures
        a == b || name_before(a, b) || name_before(b, a),
        !(name_before(a, b) && name_before(b, a)),
        a == b ==> !name_before(a, b),
    decreases a.len(),
{
    if a.len() > 0 && b.len() > 0 {
        if a[0] == b[0] {
            lemma_name_order(a.skip(1), b.skip(1));
            if a.skip(1) == b.skip(1) {
                assert forall|i: int| 0 <= i < a.len() implies a[i] == b[i] by {
                    if i > 0 {
                        assert(a.skip(1)[i - 1] == b.skip(1)[i - 1]);
                    }
                }
                assert(a.skip(1).len() == b.skip(1).len());
                assert(a =~= b);
            }
        }
    } else if a.len() == 0 && b.len() == 0 {
        assert(a =~= b);
    }
}

proof fn lemma_name_chain(a: Seq<char>, b: Seq<char>, c: Seq<char>)
    requires
        name_before(a, b),
        name_before(b, c),
    ensures
        name_before(a, c),
    decreases a.len(),
{
    if a.len() > 0 && a[0] == b[0] && b[0] == c[0] {
        lemma_name_chain(a.skip(1), b.skip(1), c.skip(1));
    }
}

proof fn lemma_part_order(a: Part, b: Part)
    ensures
        a == b || part_before(a, b) || part_before(b, a),
        !(part_before(a, b) && part_before(b, a)),
        a == b ==> !part_before(a, b),
{
    if a is Name && b is Name {
        lemma_name_order(a->Name_0, b->Name_0);
    }
    if a is Share && b is Share {
        lemma_name_order(a->Share_0, b->Share_0);
        lemma_name_order(a->Share_1, b->Share_1);
    }
}

proof fn lemma_part_chain(a: Part, b: Part, c: Part)
    requires
        part_before(a, b),
        part_before(b, c),
    ensures
        part_before(a, c),
{
    if a is Name && b is Name && c is Name {
        lemma_name_chain(a->Name_0, b->Name_0, c->Name_0);
    }
    if a is Share && b is Share && c is Share {
        if name_before(a->Share_0, b->Share_0) && name_before(b->Share_0, c->Share_0) {
            lemma_name_chain(a->Share_0, b->Share_0, c->Share_0);
        } else if a->Share_0 == b->Share_0 && b->Share_0 == c->Share_0 {
            lemma_name_order(a->Share_0, a->Share_0);
            lemma_name_chain(a->Share_1, b->Share_1, c->Share_1);
        }
    }
}

/// Of two paths one comes before the other, and not the other way too, unless their parts are
/// the same.
pub proof fn law_paths_are_ordered(a: Seq<Part>, b: Seq<Part>)
    ensures
        a == b || path_before(a, b) || path_before(b, a),
        !(path_before(a, b) && path_before(b, a)),
        a == b ==> !path_before(a, b),
    decreases a.len(),
{
    if a.len() > 0 && b.len() > 0 {
        if a[0] == b[0] {
            law_paths_are_ordered(a.skip(1), b.skip(1));
            if a.skip(1) == b.skip(1) {
                assert forall|i: int| 0 <= i < a.len() implies a[i] == b[i] by {
                    if i > 0 {
                        assert(a.skip(1)[i - 1] == b.skip(1)[i - 1]);
                    }
                }
                assert(a.skip(1).len() == b.skip(1).len());
                assert(a =~= b);
            }
        } else {
            lemma_part_order(a[0], b[0]);
        }
    } else if a.len() == 0 && b.len() == 0 {
        assert(a =~= b);
    }
}

/// A path that comes before a second, which comes before a third, comes before the third.
pub proof fn law_path_order_chains(a: Seq<Part>, b: Seq<Part>, c: Seq<Part>)
    requires
        path_before(a, b),
        path_before(b, c),
    ensures
        path_before(a, c),
    decreases a.len(),
{
    if a.len() > 0 {
        if a[0] == b[0] && b[0] == c[0] {
            law_path_order_chains(a.skip(1), b.skip(1), c.skip(1));
        } else if a[0] == b[0] {
        } else if b[0] == c[0] {
        } else {
            lemma_part_chain(a[0], b[0], c[0]);
            lemma_part_order(a[0], c[0]);
            if a[0] == c[0] {
                lemma_part_order(a[0], b[0]);
            }
        }
    }
}

/// How one thing stands to another in their order.
#[derive(Clone, Copy, Debug, PartialEq, Eq, Structural)]
pub enum Place {
    Before,
    Same,
    After,
}

fn place_names(a: &[char], b: &[char]) -> (r: Place)
    ensures
        r == Place::Before <==> name_before(a@, b@),
        r == Place::Same <==> a@ == b@,
        r == Place::After <==> name_before(b@, a@),
{
    let na: usize = a.len();
    let nb: usize = b.len();
    let mut i: usize = 0;
    proof {
        assert(a@.skip(0) =~= a@);
        assert(b@.skip(0) =~= b@);
    }
    while i < na && i < nb && a[i] == b[i]
        invariant
            na == a@.len(),
            nb == b@.len(),
            i <= na,
            i <= nb,
            forall|k: int| 0 <= k < i ==> a@[k] == b@[k],
            name_before(a@, b@) == name_before(a@.skip(i as int), b@.skip(i as int)),
            name_before(b@, a@) == name_before(b@.skip(i as int), a@.skip(i as int)),
        decreases na - i,
    {
        proof {
            assert(a@.skip(i as int).skip(1) =~= a@.skip(i + 1));
            assert(b@.skip(i as int).skip(1) =~= b@.skip(i + 1));
        }
        i += 1;
    }
    proof {
        lemma_name_order(a@, b@);
        if i < na {
            assert(a@.skip(i as int)[0] == a@[i as int]);
        }
        if i < nb {
            assert(b@.skip(i as int)[0] == b@[i as int]);
        }
    }
    if i < na && i < nb {
        if a[i] < b[i] {
            Place::Before
        } else {
            Place::After
        }
    } else if i < nb {
        Place::Before
    } else if i < na {
        Place::After
    } else {
        assert(a@ =~= b@);
        Place::Same
    }
}

fn rank_of(p: &PathPart) -> (r: u8)
    ensures
        r == rank(p.view()),
{
    match p {
        PathPart::Share(_, _) => 0,
        PathPart::Drive(_) => 1,
        PathPart::Root => 2,
        PathPart::Current => 3,
        PathPart::Parent => 4,
        PathPart::Name(_) => 5,
    }
}

fn place_parts(a: &PathPart, b: &PathPart) -> (r: Place)
    ensures
        r == Place::Before <==> part_before(a.view(), b.view()),
        r == Place::Same <==> a.view() == b.view(),
        r == Place::After <==> part_before(b.view(), a.view()),
{
    proof {
        lemma_part_order(a.view(), b.view());
    }
    match (a, b) {
        (PathPart::Name(x), PathPart::Name(y)) => place_names(x.as_slice(), y.as_slice()),
        (PathPart::Share(x, xs), PathPart::Share(y, ys)) => {
            proof {
                lemma_name_order(x@, y@);
            }
            match place_names(x.as_slice(), y.as_slice()) {
                Place::Same => place_names(xs.as_slice(), ys.as_slice()),
                other => other,
            }
        },
        (PathPart::Drive(x), PathPart::Drive(y)) => if *x < *y {
            Place::Before
        } else if *x == *y {
            Place::Same
        } else {
            Place::After
        },
        _ => {
            let x: u8 = rank_of(a);
            let y: u8 = rank_of(b);
            if x < y {
                Place::Before
            } else if x == y {
                Place::Same
            } else {
                Place::After
            }
        },
    }
}

/// How one path stands to another.
pub fn place_paths(a: &[PathPart], b: &[PathPart]) -> (r: Place)
    ensures
        r == Place::Before <==> path_before(views(a@), views(b@)),
        r == Place::Same <==> views(a@) == views(b@),
        r == Place::After <==> path_before(views(b@), views(a@)),
{
    let na: usize = a.len();
    let nb: usize = b.len();
    let ghost va = views(a@);
    let ghost vb = views(b@);
    let mut i: usize = 0;
    proof {
        assert(va.skip(0) =~= va);
        assert(vb.skip(0) =~= vb);
        law_paths_are_ordered(va, vb);
    }
    while i < na && i < nb
        invariant
            na == a@.len(),
            nb == b@.len(),
            va == views(a@),
            vb == views(b@),
            i <= na,
            i <= nb,
            va == vb || path_before(va, vb) || path_before(vb, va),
            !(path_before(va, vb) && path_before(vb, va)),
            va == vb ==> !path_before(va, vb),
            forall|k: int| 0 <= k < i ==> va[k] == vb[k],
            path_before(va, vb) == path_before(va.skip(i as int), vb.skip(i as int)),
            path_before(vb, va) == path_before(vb.skip(i as int), va.skip(i as int)),
        decreases na - i,
    {
        proof {
            assert(va.skip(i as int)[0] == a@[i as int].view());
            assert(vb.skip(i as int)[0] == b@[i as int].view());
            assert(va.skip(i as int).skip(1) =~= va.skip(i + 1));
            assert(vb.skip(i as int).skip(1) =~= vb.skip(i + 1));
        }
        let here: Place = place_parts(&a[i], &b[i]);
        match here {
            Place::Same => {},
            _ => {
                return here;
            },
        }
        i += 1;
    }
    if i < nb {
        Place::Before
    } else if i < na {
        Place::After
    } else {
        assert(va =~= vb);
        Place::Same
    }
}

} // verus!
