//! Paths as the sequence of their components, read as `std::path::Path`
//! reads a Unix path: `/` separates components, empty components and `.`
//! (but for a leading one) are dropped, `..` is the parent directory.

use vstd::prelude::*;
use crate::text;

verus! {

/// One component of a path, as `std::path::Component` (on Unix).
#[derive(Clone, Debug, PartialEq, Eq)]
pub enum PathComponent {
    RootDir,
    CurDir,
    ParentDir,
    Normal(String),
}

/// What a `PathComponent` stands for.
pub enum Part {
    RootDir,
    CurDir,
    ParentDir,
    Normal(Seq<char>),
}

impl View for PathComponent {
    type V = Part;

    open spec fn view(&self) -> Part {
        match self {
            PathComponent::RootDir => Part::RootDir,
            PathComponent::CurDir => Part::CurDir,
            PathComponent::ParentDir => Part::ParentDir,
            PathComponent::Normal(s) => Part::Normal(s@),
        }
    }
}

/// What the components held by `v` stand for.
pub open spec fn parts_of(v: Seq<PathComponent>) -> Seq<Part> {
    v.map_values(|c: PathComponent| c@)
}

/// The pieces of `cur + rest` between the `/` of `rest`, where `cur`
/// starts the first piece.
pub open spec fn pieces_from(cur: Seq<char>, rest: Seq<char>) -> Seq<Seq<char>>
    decreases rest.len(),
{
    if rest.len() == 0 {
        seq![cur]
    } else if rest[0] == '/' {
        seq![cur] + pieces_from(seq![], rest.drop_first())
    } else {
        pieces_from(cur.push(rest[0]), rest.drop_first())
    }
}

/// The component a piece between separators stands for, if any; `first`
/// says whether it is the first piece of the path.
pub open spec fn part_of_piece(piece: Seq<char>, first: bool) -> Seq<Part> {
    if piece.len() == 0 {
        seq![]
    } else if piece == seq!['.'] {
        if first {
            seq![Part::CurDir]
        } else {
            seq![]
        }
    } else if piece == seq!['.', '.'] {
        seq![Part::ParentDir]
    } else {
        seq![Part::Normal(piece)]
    }
}

/// The components that `pieces` stand for.
pub open spec fn parts_of_pieces(pieces: Seq<Seq<char>>, first: bool) -> Seq<Part>
    decreases pieces.len(),
{
    if pieces.len() == 0 {
        seq![]
    } else {
        part_of_piece(pieces[0], first) + parts_of_pieces(pieces.drop_first(), false)
    }
}

/// The components of the path `s` (`Path::components`).
pub open spec fn path_parts(s: Seq<char>) -> Seq<Part> {
    (if s.len() > 0 && s[0] == '/' {
        seq![Part::RootDir]
    } else {
        seq![]
    }) + parts_of_pieces(pieces_from(seq![], s), true)
}

fn component_of_piece(piece: &Vec<char>, first: bool, out: &mut Vec<PathComponent>)
    ensures
        parts_of(final(out)@) == parts_of(old(out)@) + part_of_piece(piece@, first),
{
    let ghost before = out@;
    if piece.len() == 0 {
        assert(parts_of(out@) =~= parts_of(before) + part_of_piece(piece@, first));
        return ;
    }
    if piece.len() == 1 && piece[0] == '.' {
        assert(piece@ =~= seq!['.']);
        if first {
            out.push(PathComponent::CurDir);
        }
        assert(parts_of(out@) =~= parts_of(before) + part_of_piece(piece@, first));
        return ;
    }
    assert(piece@ != seq!['.']);
    if piece.len() == 2 && piece[0] == '.' && piece[1] == '.' {
        assert(piece@ =~= seq!['.', '.']);
        out.push(PathComponent::ParentDir);
        assert(parts_of(out@) =~= parts_of(before) + part_of_piece(piece@, first));
        return ;
    }
    assert(piece@ != seq!['.', '.']);
    out.push(PathComponent::Normal(text::string_from_chars(piece)));
    assert(parts_of(out@) =~= parts_of(before) + part_of_piece(piece@, first));
}

/// The components of the path `path`.
pub fn components(path: &str) -> (r: Vec<PathComponent>)
    ensures
        parts_of(r@) == path_parts(path@),
{
    let s = text::str_chars(path);
    let mut out: Vec<PathComponent> = Vec::new();
    if s.len() > 0 && s[0] == '/' {
        out.push(PathComponent::RootDir);
    }
    let mut cur: Vec<char> = Vec::new();
    let mut first = true;
    let mut i: usize = 0;
    assert(s@.skip(0) =~= s@);
    assert(parts_of(out@) =~= (if s@.len() > 0 && s@[0] == '/' {
        seq![Part::RootDir]
    } else {
        seq![]
    }));
    while i < s.len()
        invariant
            i <= s.len(),
            s@ == path@,
            path_parts(s@) == parts_of(out@) + parts_of_pieces(pieces_from(cur@, s@.skip(i as int)), first),
        decreases s.len() - i,
    {
        let ghost rest = s@.skip(i as int);
        assert(rest.drop_first() =~= s@.skip(i + 1));
        let c = s[i];
        if c == '/' {
            let ghost before = parts_of(out@);
            let ghost tail = pieces_from(seq![], rest.drop_first());
            assert(pieces_from(cur@, rest) == seq![cur@] + tail);
            assert((seq![cur@] + tail).drop_first() =~= tail);
            component_of_piece(&cur, first, &mut out);
            assert(before + (part_of_piece(cur@, first) + parts_of_pieces(tail, false))
                =~= parts_of(out@) + parts_of_pieces(tail, false));
            cur = Vec::new();
            first = false;
        } else {
            cur.push(c);
        }
        i = i + 1;
    }
    let ghost before = parts_of(out@);
    assert(pieces_from(cur@, s@.skip(i as int)) == seq![cur@]);
    assert(seq![cur@].drop_first() =~= Seq::<Seq<char>>::empty());
    assert(parts_of_pieces(seq![cur@], first) == part_of_piece(cur@, first) + parts_of_pieces(Seq::<Seq<char>>::empty(), false));
    component_of_piece(&cur, first, &mut out);
    assert(before + (part_of_piece(cur@, first) + Seq::<Part>::empty()) =~= parts_of(out@));
    out
}


/// Where in the text each component of `pieces` stands, the first piece
/// starting at `offset`: a span `(start, end)` for each piece that makes a
/// component.
pub open spec fn spans_of_pieces(pieces: Seq<Seq<char>>, first: bool, offset: int) -> Seq<(int, int)>
    decreases pieces.len(),
{
    if pieces.len() == 0 {
        seq![]
    } else {
        (if part_of_piece(pieces[0], first).len() > 0 {
            seq![(offset, offset + pieces[0].len())]
        } else {
            seq![]
        }) + spans_of_pieces(pieces.drop_first(), false, offset + pieces[0].len() + 1)
    }
}

/// Where in the path text `s` each of its components stands: the root
/// directory is the leading `/`, the others are their pieces.
pub open spec fn path_spans(s: Seq<char>) -> Seq<(int, int)> {
    (if s.len() > 0 && s[0] == '/' {
        seq![(0int, 1int)]
    } else {
        seq![]
    }) + spans_of_pieces(pieces_from(seq![], s), true, 0)
}

pub proof fn lemma_spans_len(pieces: Seq<Seq<char>>, first: bool, offset: int)
    ensures
        spans_of_pieces(pieces, first, offset).len() == parts_of_pieces(pieces, first).len(),
    decreases pieces.len(),
{
    if pieces.len() > 0 {
        lemma_spans_len(pieces.drop_first(), false, offset + pieces[0].len() + 1);
    }
}

/// There is one span for each component.
pub proof fn lemma_path_spans_len(s: Seq<char>)
    ensures
        path_spans(s).len() == path_parts(s).len(),
{
    lemma_spans_len(pieces_from(seq![], s), true, 0);
}

/// The spans as integers.
pub open spec fn spans_view(v: Seq<(usize, usize)>) -> Seq<(int, int)> {
    v.map_values(|p: (usize, usize)| (p.0 as int, p.1 as int))
}

/// Where in the text `path` each of its components stands; the spans lie
/// within the text, in order.
pub fn component_spans(path: &str) -> (r: Vec<(usize, usize)>)
    ensures
        spans_view(r@) == path_spans(path@),
        forall|j: int| 0 <= j < r@.len() ==> #[trigger] r@[j].0 <= r@[j].1 <= path@.len(),
        forall|j: int, l: int| 0 <= j < l < r@.len() ==> #[trigger] r@[j].1 <= #[trigger] r@[l].0,
{
    let s = text::str_chars(path);
    let mut out: Vec<(usize, usize)> = Vec::new();
    if s.len() > 0 && s[0] == '/' {
        out.push((0, 1));
    }
    assert(spans_view(out@) =~= (if s@.len() > 0 && s@[0] == '/' {
        seq![(0int, 1int)]
    } else {
        seq![]
    }));
    let mut start: usize = 0;
    let mut first = true;
    let mut i: usize = 0;
    assert(s@.skip(0) =~= s@);
    assert(s@.subrange(0, 0) =~= Seq::<char>::empty());
    while i < s.len()
        invariant
            start <= i <= s.len(),
            s@ == path@,
            path_spans(s@) == spans_view(out@) + spans_of_pieces(
                pieces_from(s@.subrange(start as int, i as int), s@.skip(i as int)),
                first,
                start as int,
            ),
            forall|j: int| 0 <= j < out@.len() ==> #[trigger] out@[j].0 <= out@[j].1 <= s.len(),
            forall|j: int, l: int| 0 <= j < l < out@.len() ==> #[trigger] out@[j].1 <= #[trigger] out@[l].0,
            i > 0 ==> forall|j: int| 0 <= j < out@.len() ==> #[trigger] out@[j].1 <= start,
            i == 0 ==> start == 0 && (out@.len() == 0 || (out@.len() == 1 && s@[0] == '/' && out@[0].1 == 1)),
        decreases s.len() - i,
    {
        let ghost cur = s@.subrange(start as int, i as int);
        let ghost rest = s@.skip(i as int);
        assert(rest.drop_first() =~= s@.skip(i + 1));
        let c = s[i];
        if c == '/' {
            let ghost tail = pieces_from(seq![], rest.drop_first());
            assert(pieces_from(cur, rest) == seq![cur] + tail);
            assert((seq![cur] + tail).drop_first() =~= tail);
            let ghost before = spans_view(out@);
            let makes = start < i && !(i - start == 1 && s[start] == '.' && !first);
            proof {
                if i - start == 1 {
                    assert(cur =~= seq![s@[start as int]]);
                }
                if cur =~= seq!['.'] {
                    assert(s@[start as int] == cur[0]);
                }
            }
            assert(makes == (part_of_piece(cur, first).len() > 0));
            if makes {
                out.push((start, i));
            }
            assert(spans_view(out@) =~= before + (if part_of_piece(cur, first).len() > 0 {
                seq![(start as int, start + cur.len())]
            } else {
                seq![]
            }));
            assert(spans_of_pieces(seq![cur] + tail, first, start as int) == (if part_of_piece(cur, first).len() > 0 {
                seq![(start as int, start + cur.len())]
            } else {
                seq![]
            }) + spans_of_pieces(tail, false, start + cur.len() + 1));
            start = i + 1;
            first = false;
            assert(s@.subrange(start as int, i + 1) =~= Seq::<char>::empty());
        } else {
            assert(pieces_from(cur, rest) == pieces_from(cur.push(c), rest.drop_first()));
            assert(cur.push(c) =~= s@.subrange(start as int, i + 1));
        }
        i = i + 1;
    }
    let ghost cur = s@.subrange(start as int, i as int);
    let ghost before = spans_view(out@);
    assert(pieces_from(cur, s@.skip(i as int)) == seq![cur]);
    assert(seq![cur].drop_first() =~= Seq::<Seq<char>>::empty());
    let makes = start < i && !(i - start == 1 && s[start] == '.' && !first);
    proof {
        if i - start == 1 {
            assert(cur =~= seq![s@[start as int]]);
        }
        if cur =~= seq!['.'] {
            assert(s@[start as int] == cur[0]);
        }
    }
    assert(makes == (part_of_piece(cur, first).len() > 0));
    if makes {
        out.push((start, i));
    }
    assert(spans_view(out@) =~= before + (if part_of_piece(cur, first).len() > 0 {
        seq![(start as int, start + cur.len())]
    } else {
        seq![]
    }) + Seq::<(int, int)>::empty());
    assert(spans_of_pieces(seq![cur], first, start as int) == (if part_of_piece(cur, first).len() > 0 {
        seq![(start as int, start + cur.len())]
    } else {
        seq![]
    }) + spans_of_pieces(Seq::<Seq<char>>::empty(), false, start + cur.len() + 1));
    out
}

/// The text `Path::strip_prefix` gives for `path` without `base`, where
/// the components of `base` start those of `path`: the text from the first
/// component after them to the end of the last one (empty if none is left).
pub open spec fn stripped_text(path: Seq<char>, base: Seq<char>) -> Option<Seq<char>> {
    let pp = path_parts(path);
    let bp = path_parts(base);
    match strip_parts(pp, bp) {
        Some(_) => {
            let sp = path_spans(path);
            Some(
                if bp.len() < pp.len() {
                    path.subrange(sp[bp.len() as int].0, sp[pp.len() - 1].1)
                } else {
                    seq![]
                },
            )
        },
        None => None,
    }
}

/// The text of `base` joined with `p` (`Path::join`): `p` itself where it
/// starts at the root, and otherwise `p` after `base`, with a `/` between
/// them where `base` does not end with one.
pub open spec fn joined_text(base: Seq<char>, p: Seq<char>) -> Seq<char> {
    if p.len() > 0 && p[0] == '/' {
        p
    } else if base.len() > 0 && base.last() != '/' {
        base + seq!['/'] + p
    } else {
        base + p
    }
}

/// The text of `path` without the leading components `base`, if `path`
/// starts with them.
pub fn strip_prefix_text(path: &str, base: &str) -> (r: Option<String>)
    ensures
        match r {
            Some(t) => stripped_text(path@, base@) == Some(t@),
            None => stripped_text(path@, base@) is None,
        },
{
    let pc = components(path);
    let bc = components(base);
    match strip_components(&pc, &bc) {
        None => None,
        Some(_) => {
            let spans = component_spans(path);
            proof {
                lemma_path_spans_len(path@);
                assert(spans_view(spans@).len() == spans@.len());
                assert(parts_of(pc@).len() == pc@.len());
                assert(parts_of(bc@).len() == bc@.len());
            }
            let k = bc.len();
            let n = pc.len();
            if k < n {
                let lo = spans[k].0;
                let hi = spans[n - 1].1;
                assert(spans_view(spans@)[k as int] == (lo as int, spans@[k as int].1 as int));
                assert(spans_view(spans@)[n - 1] == (spans@[n - 1].0 as int, hi as int));
                if k < n - 1 {
                    assert(spans@[k as int].1 <= spans@[n - 1].0);
                }
                let chars = text::str_chars(path);
                let t = text::sub_chars(&chars, lo, hi);
                Some(text::string_from_chars(&t))
            } else {
                Some(String::new())
            }
        },
    }
}

/// The text of `base` joined with `p`.
pub fn join_text(base: &str, p: &str) -> (r: String)
    ensures
        r@ == joined_text(base@, p@),
{
    let pc = text::str_chars(p);
    let bc = text::str_chars(base);
    if pc.len() > 0 && pc[0] == '/' {
        return p.to_owned();
    }
    let mut out = base.to_owned();
    if bc.len() > 0 && bc[bc.len() - 1] != '/' {
        text::push_str(&mut out, "/");
        proof { reveal_strlit("/"); }
        assert("/"@ =~= seq!['/']);
    }
    text::push_str(&mut out, p);
    out
}

/// A copy of `c`.
pub fn copy_component(c: &PathComponent) -> (r: PathComponent)
    ensures
        r@ == c@,
{
    match c {
        PathComponent::RootDir => PathComponent::RootDir,
        PathComponent::CurDir => PathComponent::CurDir,
        PathComponent::ParentDir => PathComponent::ParentDir,
        PathComponent::Normal(s) => PathComponent::Normal(s.clone()),
    }
}

/// Whether the two components are the same.
pub fn same_component(a: &PathComponent, b: &PathComponent) -> (r: bool)
    ensures
        r == (a@ == b@),
{
    match (a, b) {
        (PathComponent::RootDir, PathComponent::RootDir) => true,
        (PathComponent::CurDir, PathComponent::CurDir) => true,
        (PathComponent::ParentDir, PathComponent::ParentDir) => true,
        (PathComponent::Normal(x), PathComponent::Normal(y)) => x.eq(y),
        _ => false,
    }
}

/// Whether the two paths have the same components.
pub fn same_components(a: &Vec<PathComponent>, b: &Vec<PathComponent>) -> (r: bool)
    ensures
        r == (parts_of(a@) == parts_of(b@)),
{
    if a.len() != b.len() {
        assert(parts_of(a@).len() != parts_of(b@).len());
        return false;
    }
    let mut i: usize = 0;
    while i < a.len()
        invariant
            a.len() == b.len(),
            i <= a.len(),
            forall|k: int| 0 <= k < i ==> parts_of(a@)[k] == parts_of(b@)[k],
        decreases a.len() - i,
    {
        if !same_component(&a[i], &b[i]) {
            assert(parts_of(a@)[i as int] != parts_of(b@)[i as int]);
            return false;
        }
        i = i + 1;
    }
    assert(parts_of(a@) =~= parts_of(b@));
    true
}

/// The components of `p` after the components `base`, if `p` starts with
/// them (`Path::strip_prefix`).
pub open spec fn strip_parts(p: Seq<Part>, base: Seq<Part>) -> Option<Seq<Part>> {
    if base.len() <= p.len() && p.take(base.len() as int) == base {
        Some(p.skip(base.len() as int))
    } else {
        None
    }
}

/// The components of `p` after `base`, if `p` starts with them.
pub fn strip_components(p: &Vec<PathComponent>, base: &Vec<PathComponent>) -> (r: Option<Vec<PathComponent>>)
    ensures
        match r {
            Some(rest) => strip_parts(parts_of(p@), parts_of(base@)) == Some(parts_of(rest@)),
            None => strip_parts(parts_of(p@), parts_of(base@)) is None,
        },
{
    if base.len() > p.len() {
        return None;
    }
    let mut i: usize = 0;
    while i < base.len()
        invariant
            base.len() <= p.len(),
            i <= base.len(),
            forall|k: int| 0 <= k < i ==> parts_of(p@)[k] == parts_of(base@)[k],
        decreases base.len() - i,
    {
        if !same_component(&p[i], &base[i]) {
            assert(parts_of(p@).take(base.len() as int)[i as int] != parts_of(base@)[i as int]);
            return None;
        }
        i = i + 1;
    }
    assert(parts_of(p@).take(base.len() as int) =~= parts_of(base@));
    let mut rest: Vec<PathComponent> = Vec::new();
    let mut j: usize = base.len();
    while j < p.len()
        invariant
            base.len() <= j <= p.len(),
            rest@.len() == j - base.len(),
            parts_of(rest@) == parts_of(p@).subrange(base.len() as int, j as int),
        decreases p.len() - j,
    {
        let ghost before = rest@;
        let c = copy_component(&p[j]);
        rest.push(c);
        assert forall|k: int| 0 <= k < rest@.len() implies #[trigger] parts_of(rest@)[k] == parts_of(p@).subrange(base.len() as int, j + 1)[k] by {
            if k < before.len() {
                assert(rest@[k] == before[k]);
                assert(parts_of(before)[k] == parts_of(p@).subrange(base.len() as int, j as int)[k]);
            }
        }
        assert(parts_of(rest@) =~= parts_of(p@).subrange(base.len() as int, j + 1));
        j = j + 1;
    }
    assert(parts_of(p@).subrange(base.len() as int, p.len() as int) =~= parts_of(p@).skip(base.len() as int));
    Some(rest)
}

/// The name of the final component, if it is a normal one (`Path::file_name`).
pub open spec fn file_name(ps: Seq<Part>) -> Option<Seq<char>> {
    if ps.len() > 0 {
        match ps.last() {
            Part::Normal(s) => Some(s),
            _ => None,
        }
    } else {
        None
    }
}

/// The index of the last `c` in `s`.
pub open spec fn last_index_of(s: Seq<char>, c: char) -> Option<int>
    decreases s.len(),
{
    if s.len() == 0 {
        None
    } else if s.last() == c {
        Some(s.len() - 1)
    } else {
        last_index_of(s.drop_last(), c)
    }
}

/// The extension of a file name: what follows its last `.`, unless that
/// `.` is its first character (`Path::extension`).
pub open spec fn extension_of(name: Seq<char>) -> Option<Seq<char>> {
    match last_index_of(name, '.') {
        Some(i) => if i == 0 {
            None
        } else {
            Some(name.skip(i + 1))
        },
        None => None,
    }
}

pub proof fn lemma_last_index_of(s: Seq<char>, c: char)
    ensures
        last_index_of(s, c) matches Some(i) ==> 0 <= i < s.len() && s[i] == c && forall|j: int|
            i < j < s.len() ==> s[j] != c,
        last_index_of(s, c) is None ==> forall|j: int| 0 <= j < s.len() ==> s[j] != c,
    decreases s.len(),
{
    if s.len() > 0 && s.last() != c {
        lemma_last_index_of(s.drop_last(), c);
        assert forall|j: int| 0 <= j < s.len() - 1 implies s.drop_last()[j] == s[j] by {}
    }
}

/// The name of the final component of `ps`, if it is a normal one.
pub fn final_name(ps: &Vec<PathComponent>) -> (r: Option<Vec<char>>)
    ensures
        match r {
            Some(n) => file_name(parts_of(ps@)) == Some(n@),
            None => file_name(parts_of(ps@)) is None,
        },
{
    if ps.len() == 0 {
        return None;
    }
    match &ps[ps.len() - 1] {
        PathComponent::Normal(s) => Some(text::str_chars(s.as_str())),
        _ => None,
    }
}

/// The extension of the file name `name`.
pub fn extension(name: &Vec<char>) -> (r: Option<Vec<char>>)
    ensures
        match r {
            Some(e) => extension_of(name@) == Some(e@),
            None => extension_of(name@) is None,
        },
{
    proof { lemma_last_index_of(name@, '.'); }
    let mut i: usize = name.len();
    while i > 0 && name[i - 1] != '.'
        invariant
            i <= name.len(),
            forall|j: int| i <= j < name.len() ==> name@[j] != '.',
        decreases i,
    {
        i = i - 1;
    }
    if i == 0 {
        assert(last_index_of(name@, '.') is None) by {
            if let Some(k) = last_index_of(name@, '.') {
                assert(name@[k] != '.');
            }
        }
        return None;
    }
    assert(last_index_of(name@, '.') == Some(i - 1)) by {
        if let Some(k) = last_index_of(name@, '.') {
            if k < i - 1 {
                assert(name@[i - 1] != '.');
            }
        }
    }
    if i == 1 {
        return None;
    }
    let e = text::sub_chars(name, i, name.len());
    assert(e@ =~= name@.skip(i as int));
    Some(e)
}


/// `a` comes before `b` in lexicographic order of characters, which is
/// the byte order of their UTF-8 encodings.
pub open spec fn chars_lt(a: Seq<char>, b: Seq<char>) -> bool
    decreases a.len(),
{
    if a.len() == 0 {
        b.len() > 0
    } else if b.len() == 0 {
        false
    } else if a[0] != b[0] {
        a[0] < b[0]
    } else {
        chars_lt(a.drop_first(), b.drop_first())
    }
}

/// The order of the kinds of components (`Component`'s variant order).
pub open spec fn part_rank(p: Part) -> int {
    match p {
        Part::RootDir => 0,
        Part::CurDir => 1,
        Part::ParentDir => 2,
        Part::Normal(_) => 3,
    }
}

/// `a` comes before `b` in the order of `Component`.
pub open spec fn part_lt(a: Part, b: Part) -> bool {
    if part_rank(a) != part_rank(b) {
        part_rank(a) < part_rank(b)
    } else {
        match (a, b) {
            (Part::Normal(x), Part::Normal(y)) => chars_lt(x, y),
            _ => false,
        }
    }
}

/// `a` comes before `b` in the order of paths: lexicographic over their
/// components (`Path::cmp`).
pub open spec fn parts_lt(a: Seq<Part>, b: Seq<Part>) -> bool
    decreases a.len(),
{
    if a.len() == 0 {
        b.len() > 0
    } else if b.len() == 0 {
        false
    } else if a[0] != b[0] {
        part_lt(a[0], b[0])
    } else {
        parts_lt(a.drop_first(), b.drop_first())
    }
}

pub proof fn lemma_chars_lt_order(a: Seq<char>, b: Seq<char>, c: Seq<char>)
    ensures
        !chars_lt(a, a),
        chars_lt(a, b) && chars_lt(b, c) ==> chars_lt(a, c),
    decreases a.len(),
{
    if a.len() > 0 {
        lemma_chars_lt_order(a.drop_first(), a.drop_first(), a.drop_first());
        if b.len() > 0 && c.len() > 0 {
            lemma_chars_lt_order(a.drop_first(), b.drop_first(), c.drop_first());
        }
    }
}

pub proof fn lemma_part_lt_order(a: Part, b: Part, c: Part)
    ensures
        !part_lt(a, a),
        part_lt(a, b) && part_lt(b, c) ==> part_lt(a, c),
{
    match (a, b, c) {
        (Part::Normal(x), Part::Normal(y), Part::Normal(z)) => {
            lemma_chars_lt_order(x, y, z);
        },
        _ => {
            if let Part::Normal(x) = a {
                lemma_chars_lt_order(x, x, x);
            }
        },
    }
}

pub proof fn lemma_parts_lt_order(a: Seq<Part>, b: Seq<Part>, c: Seq<Part>)
    ensures
        !parts_lt(a, a),
        parts_lt(a, b) && parts_lt(b, c) ==> parts_lt(a, c),
    decreases a.len(),
{
    if a.len() > 0 {
        lemma_parts_lt_order(a.drop_first(), a.drop_first(), a.drop_first());
        if b.len() > 0 && c.len() > 0 {
            lemma_parts_lt_order(a.drop_first(), b.drop_first(), c.drop_first());
            lemma_part_lt_order(a[0], b[0], c[0]);
            lemma_part_lt_order(a[0], a[0], a[0]);
            lemma_part_lt_order(b[0], b[0], b[0]);
            if part_lt(a[0], b[0]) && part_lt(b[0], a[0]) {
                lemma_part_lt_order(a[0], b[0], a[0]);
            }
            if part_lt(b[0], c[0]) && part_lt(c[0], b[0]) {
                lemma_part_lt_order(b[0], c[0], b[0]);
            }
        }
    }
}

/// Of two different texts, one comes before the other.
pub proof fn lemma_chars_lt_total(a: Seq<char>, b: Seq<char>)
    ensures
        a != b ==> chars_lt(a, b) || chars_lt(b, a),
    decreases a.len(),
{
    if a.len() > 0 && b.len() > 0 && a[0] == b[0] {
        lemma_chars_lt_total(a.drop_first(), b.drop_first());
        if a.drop_first() == b.drop_first() {
            assert(a =~= seq![a[0]] + a.drop_first());
            assert(b =~= seq![b[0]] + b.drop_first());
        }
    } else if a.len() == 0 && b.len() == 0 {
        assert(a =~= b);
    }
}

/// Of two different components, one comes before the other.
pub proof fn lemma_part_lt_total(a: Part, b: Part)
    ensures
        a != b ==> part_lt(a, b) || part_lt(b, a),
{
    if let (Part::Normal(x), Part::Normal(y)) = (a, b) {
        lemma_chars_lt_total(x, y);
    }
}

/// Of two paths with different components, one comes before the other.
pub proof fn lemma_parts_lt_total(a: Seq<Part>, b: Seq<Part>)
    ensures
        a != b ==> parts_lt(a, b) || parts_lt(b, a),
    decreases a.len(),
{
    if a.len() > 0 && b.len() > 0 {
        lemma_part_lt_total(a[0], b[0]);
        if a[0] == b[0] {
            lemma_parts_lt_total(a.drop_first(), b.drop_first());
            if a.drop_first() == b.drop_first() {
                assert(a =~= seq![a[0]] + a.drop_first());
                assert(b =~= seq![b[0]] + b.drop_first());
            }
        }
    } else if a.len() == 0 && b.len() == 0 {
        assert(a =~= b);
    }
}

/// Whether `a` comes before `b` in lexicographic order.
pub fn chars_less(a: &Vec<char>, b: &Vec<char>) -> (r: bool)
    ensures
        r == chars_lt(a@, b@),
{
    let mut i: usize = 0;
    assert(a@.skip(0) =~= a@);
    assert(b@.skip(0) =~= b@);
    loop
        invariant
            i <= a.len(),
            i <= b.len(),
            chars_lt(a@, b@) == chars_lt(a@.skip(i as int), b@.skip(i as int)),
        decreases a.len() - i,
    {
        if i == a.len() {
            return i < b.len();
        }
        if i == b.len() {
            return false;
        }
        if a[i] != b[i] {
            return a[i] < b[i];
        }
        assert(a@.skip(i as int).drop_first() =~= a@.skip(i + 1));
        assert(b@.skip(i as int).drop_first() =~= b@.skip(i + 1));
        i = i + 1;
    }
}

/// Whether `a` comes before `b` in the order of `Component`.
pub fn component_less(a: &PathComponent, b: &PathComponent) -> (r: bool)
    ensures
        r == part_lt(a@, b@),
{
    match (a, b) {
        (PathComponent::Normal(x), PathComponent::Normal(y)) => {
            chars_less(&text::str_chars(x.as_str()), &text::str_chars(y.as_str()))
        },
        _ => rank(a) < rank(b),
    }
}

fn rank(c: &PathComponent) -> (r: u8)
    ensures
        r == part_rank(c@),
{
    match c {
        PathComponent::RootDir => 0,
        PathComponent::CurDir => 1,
        PathComponent::ParentDir => 2,
        PathComponent::Normal(_) => 3,
    }
}

/// Whether the path made of `a` comes before the one made of `b`.
pub fn components_less(a: &Vec<PathComponent>, b: &Vec<PathComponent>) -> (r: bool)
    ensures
        r == parts_lt(parts_of(a@), parts_of(b@)),
{
    let ghost pa = parts_of(a@);
    let ghost pb = parts_of(b@);
    let mut i: usize = 0;
    assert(pa.skip(0) =~= pa);
    assert(pb.skip(0) =~= pb);
    loop
        invariant
            pa == parts_of(a@),
            pb == parts_of(b@),
            i <= a.len(),
            i <= b.len(),
            parts_lt(pa, pb) == parts_lt(pa.skip(i as int), pb.skip(i as int)),
        decreases a.len() - i,
    {
        if i == a.len() {
            return i < b.len();
        }
        if i == b.len() {
            return false;
        }
        assert(pa.skip(i as int)[0] == a@[i as int]@);
        assert(pb.skip(i as int)[0] == b@[i as int]@);
        if !same_component(&a[i], &b[i]) {
            return component_less(&a[i], &b[i]);
        }
        assert(pa.skip(i as int).drop_first() =~= pa.skip(i + 1));
        assert(pb.skip(i as int).drop_first() =~= pb.skip(i + 1));
        i = i + 1;
    }
}

} // verus!
