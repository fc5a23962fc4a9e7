//! Character-level text utilities shared by the scanners and the
//! `.npmrc` patcher, each specified over `Seq<char>`.

use vstd::prelude::*;

verus! {

broadcast use vstd::string::group_string_axioms;

/// Whether `c` has the Unicode `White_Space` property, which is what
/// `char::is_whitespace` tests.
pub open spec fn spec_is_whitespace(c: char) -> bool {
    ||| ('\u{9}' <= c && c <= '\u{d}')
    ||| c == ' '
    ||| c == '\u{85}'
    ||| c == '\u{a0}'
    ||| c == '\u{1680}'
    ||| ('\u{2000}' <= c && c <= '\u{200a}')
    ||| c == '\u{2028}'
    ||| c == '\u{2029}'
    ||| c == '\u{202f}'
    ||| c == '\u{205f}'
    ||| c == '\u{3000}'
}

pub fn is_whitespace(c: char) -> (b: bool)
    ensures
        b == spec_is_whitespace(c),
{
    ('\u{9}' <= c && c <= '\u{d}') || c == ' ' || c == '\u{85}' || c == '\u{a0}' || c
        == '\u{1680}' || ('\u{2000}' <= c && c <= '\u{200a}') || c == '\u{2028}' || c
        == '\u{2029}' || c == '\u{202f}' || c == '\u{205f}' || c == '\u{3000}'
}

/// The characters of `s`, in order.
pub fn str_chars(s: &str) -> (v: Vec<char>)
    ensures
        v@ == s@,
{
    let mut v: Vec<char> = Vec::new();
    for c in iter: s.chars()
        invariant
            v@ == iter.seq().take(iter.index() as int),
            iter.seq() == s@,
    {
        v.push(c);
    }
    v
}


/// `s` without its leading whitespace (`str::trim_start`).
pub open spec fn trim_start(s: Seq<char>) -> Seq<char>
    decreases s.len(),
{
    if s.len() > 0 && spec_is_whitespace(s[0]) {
        trim_start(s.drop_first())
    } else {
        s
    }
}

/// `s` without its trailing whitespace (`str::trim_end`).
pub open spec fn trim_end(s: Seq<char>) -> Seq<char>
    decreases s.len(),
{
    if s.len() > 0 && spec_is_whitespace(s.last()) {
        trim_end(s.drop_last())
    } else {
        s
    }
}

/// `s` without whitespace at either end (`str::trim`).
pub open spec fn trim(s: Seq<char>) -> Seq<char> {
    trim_end(trim_start(s))
}

/// The whitespace that `trim_start` removes from `s`.
pub open spec fn leading_whitespace(s: Seq<char>) -> Seq<char> {
    s.take(s.len() - trim_start(s).len())
}

pub proof fn lemma_trim_start_is_suffix(s: Seq<char>)
    ensures
        trim_start(s).len() <= s.len(),
        trim_start(s) == s.skip(s.len() - trim_start(s).len()),
        forall|i: int| 0 <= i < s.len() - trim_start(s).len() ==> spec_is_whitespace(#[trigger] s[i]),
        trim_start(s).len() > 0 ==> !spec_is_whitespace(trim_start(s)[0]),
    decreases s.len(),
{
    if s.len() > 0 && spec_is_whitespace(s[0]) {
        lemma_trim_start_is_suffix(s.drop_first());
        assert forall|i: int| 0 <= i < s.len() - trim_start(s).len() implies spec_is_whitespace(#[trigger] s[i]) by {
            if i > 0 {
                assert(s[i] == s.drop_first()[i - 1]);
            }
        }
        assert(s.drop_first().skip(s.drop_first().len() - trim_start(s).len()) =~= s.skip(s.len() - trim_start(s).len()));
    } else {
        assert(s.skip(0) =~= s);
    }
}

pub proof fn lemma_trim_end_is_prefix(s: Seq<char>)
    ensures
        trim_end(s).len() <= s.len(),
        trim_end(s) == s.take(trim_end(s).len() as int),
        forall|i: int| trim_end(s).len() <= i < s.len() ==> spec_is_whitespace(#[trigger] s[i]),
        trim_end(s).len() > 0 ==> !spec_is_whitespace(trim_end(s).last()),
    decreases s.len(),
{
    if s.len() > 0 && spec_is_whitespace(s.last()) {
        lemma_trim_end_is_prefix(s.drop_last());
        assert forall|i: int| trim_end(s).len() <= i < s.len() implies spec_is_whitespace(#[trigger] s[i]) by {
            if i < s.len() - 1 {
                assert(s[i] == s.drop_last()[i]);
            }
        }
        assert(s.drop_last().take(trim_end(s).len() as int) =~= s.take(trim_end(s).len() as int));
    } else {
        assert(s.take(s.len() as int) =~= s);
    }
}

pub proof fn lemma_trim_start_push(m: Seq<char>, x: char)
    ensures
        trim_start(m.push(x)) == (if trim_start(m).len() > 0 {
            trim_start(m).push(x)
        } else {
            trim_start(seq![x])
        }),
    decreases m.len(),
{
    if m.len() == 0 {
        assert(m.push(x) =~= seq![x]);
    } else {
        assert(m.push(x)[0] == m[0]);
        assert(m.push(x).drop_first() =~= m.drop_first().push(x));
        if spec_is_whitespace(m[0]) {
            lemma_trim_start_push(m.drop_first(), x);
        }
    }
}

/// Whitespace in front of `s` does not change `trim_start(s)`.
pub proof fn lemma_trim_start_after_whitespace(w: Seq<char>, s: Seq<char>)
    requires
        forall|i: int| 0 <= i < w.len() ==> spec_is_whitespace(#[trigger] w[i]),
    ensures
        trim_start(w + s) == trim_start(s),
    decreases w.len(),
{
    if w.len() == 0 {
        assert(w + s =~= s);
    } else {
        assert((w + s)[0] == w[0]);
        assert((w + s).drop_first() =~= w.drop_first() + s);
        assert forall|i: int| 0 <= i < w.drop_first().len() implies spec_is_whitespace(#[trigger] w.drop_first()[i]) by {
            assert(w.drop_first()[i] == w[i + 1]);
        }
        lemma_trim_start_after_whitespace(w.drop_first(), s);
    }
}

/// Trailing whitespace does not change `trim(s)`.
pub proof fn lemma_trim_push_whitespace(s: Seq<char>, w: char)
    requires
        spec_is_whitespace(w),
    ensures
        trim(s.push(w)) == trim(s),
{
    lemma_trim_start_push(s, w);
    if trim_start(s).len() > 0 {
        assert(trim_start(s).push(w).drop_last() =~= trim_start(s));
    } else {
        assert(seq![w].drop_first() =~= Seq::<char>::empty());
        assert(trim_start(seq![w]) == trim_start(Seq::<char>::empty()));
        assert(trim_start(s) =~= Seq::<char>::empty());
    }
}

/// A copy of `s[lo..hi]`.
pub fn sub_chars(s: &Vec<char>, lo: usize, hi: usize) -> (r: Vec<char>)
    requires
        lo <= hi <= s.len(),
    ensures
        r@ == s@.subrange(lo as int, hi as int),
{
    let mut r: Vec<char> = Vec::new();
    let mut i = lo;
    while i < hi
        invariant
            lo <= i <= hi <= s.len(),
            r@ == s@.subrange(lo as int, i as int),
        decreases hi - i,
    {
        r.push(s[i]);
        i = i + 1;
    }
    r
}

/// The number of leading whitespace characters of `s`.
pub fn leading_whitespace_len(s: &Vec<char>) -> (k: usize)
    ensures
        k == s@.len() - trim_start(s@).len(),
        s@.skip(k as int) == trim_start(s@),
{
    proof { lemma_trim_start_is_suffix(s@); }
    let mut k: usize = 0;
    assert(s@.skip(0) =~= s@);
    while k < s.len() && is_whitespace(s[k])
        invariant
            k <= s.len(),
            trim_start(s@.skip(k as int)) == trim_start(s@),
        decreases s.len() - k,
    {
        assert(s@.skip(k as int).drop_first() =~= s@.skip(k + 1));
        k = k + 1;
    }
    proof {
        if k < s.len() {
            assert(!spec_is_whitespace(s@.skip(k as int)[0]));
        }
    }
    k
}

/// The number of characters of `s` that `trim_end` keeps.
pub fn trim_end_len(s: &Vec<char>) -> (k: usize)
    ensures
        k <= s.len(),
        k == trim_end(s@).len(),
        s@.take(k as int) == trim_end(s@),
{
    proof { lemma_trim_end_is_prefix(s@); }
    let mut k: usize = s.len();
    assert(s@.take(k as int) =~= s@);
    while k > 0 && is_whitespace(s[k - 1])
        invariant
            k <= s.len(),
            trim_end(s@.take(k as int)) == trim_end(s@),
        decreases k,
    {
        assert(s@.take(k as int).drop_last() =~= s@.take(k - 1));
        k = k - 1;
    }
    proof {
        assert(s@.take(k as int).len() == k);
        if k > 0 {
            assert(s@.take(k as int).last() == s@[k - 1]);
        }
    }
    k
}

/// `trim(s)`, as a new vector.
pub fn trimmed(s: &Vec<char>) -> (r: Vec<char>)
    ensures
        r@ == trim(s@),
{
    let lo = leading_whitespace_len(s);
    let rest = sub_chars(s, lo, s.len());
    assert(rest@ == trim_start(s@));
    let hi = trim_end_len(&rest);
    sub_chars(&rest, 0, hi)
}

/// Whether the two character sequences are equal.
pub fn chars_equal(a: &Vec<char>, b: &Vec<char>) -> (r: bool)
    ensures
        r == (a@ == b@),
{
    if a.len() != b.len() {
        return false;
    }
    let mut i: usize = 0;
    while i < a.len()
        invariant
            a.len() == b.len(),
            i <= a.len(),
            forall|j: int| 0 <= j < i ==> a@[j] == b@[j],
        decreases a.len() - i,
    {
        if a[i] != b[i] {
            return false;
        }
        i = i + 1;
    }
    assert(a@ =~= b@);
    true
}

/// The index of the first occurrence of `c` in `s`.
pub open spec fn index_of(s: Seq<char>, c: char) -> Option<int>
    decreases s.len(),
{
    if s.len() == 0 {
        None
    } else if s[0] == c {
        Some(0)
    } else {
        match index_of(s.drop_first(), c) {
            Some(i) => Some(i + 1),
            None => None,
        }
    }
}

pub proof fn lemma_index_of(s: Seq<char>, c: char)
    ensures
        index_of(s, c) matches Some(i) ==> 0 <= i < s.len() && s[i] == c && forall|j: int|
            0 <= j < i ==> s[j] != c,
        index_of(s, c) is None ==> forall|j: int| 0 <= j < s.len() ==> s[j] != c,
    decreases s.len(),
{
    if s.len() > 0 && s[0] != c {
        lemma_index_of(s.drop_first(), c);
        assert forall|j: int| 0 < j < s.len() implies s[j] == s.drop_first()[j - 1] by {}
    }
}

pub proof fn lemma_index_of_push(s: Seq<char>, x: char, c: char)
    requires
        x != c,
    ensures
        index_of(s.push(x), c) == index_of(s, c),
    decreases s.len(),
{
    if s.len() == 0 {
        assert(s.push(x).drop_first() =~= Seq::<char>::empty());
    } else {
        assert(s.push(x)[0] == s[0]);
        assert(s.push(x).drop_first() =~= s.drop_first().push(x));
        lemma_index_of_push(s.drop_first(), x, c);
    }
}

/// The position of the first `c` in `s`, if any.
pub fn find_char(s: &Vec<char>, c: char) -> (r: Option<usize>)
    ensures
        r matches Some(i) ==> index_of(s@, c) == Some(i as int),
        r is None ==> index_of(s@, c) is None,
{
    proof { lemma_index_of(s@, c); }
    let mut i: usize = 0;
    while i < s.len()
        invariant
            i <= s.len(),
            forall|j: int| 0 <= j < i ==> s@[j] != c,
        decreases s.len() - i,
    {
        if s[i] == c {
            proof {
                lemma_index_of(s@, c);
                if let Some(k) = index_of(s@, c) {
                    assert(k == i);
                }
            }
            return Some(i);
        }
        i = i + 1;
    }
    None
}


/// `l` without one trailing carriage return.
pub open spec fn strip_cr(l: Seq<char>) -> Seq<char> {
    if l.len() > 0 && l.last() == '\r' {
        l.drop_last()
    } else {
        l
    }
}

/// The lines of `cur + rest`, where `cur` is the start of a line that
/// `rest` goes on with: a line ends at `\n`, which is dropped together
/// with one `\r` before it; a last line without `\n` keeps its `\r`.
pub open spec fn lines_from(cur: Seq<char>, rest: Seq<char>) -> Seq<Seq<char>>
    decreases rest.len(),
{
    if rest.len() == 0 {
        if cur.len() == 0 {
            seq![]
        } else {
            seq![cur]
        }
    } else if rest[0] == '\n' {
        seq![strip_cr(cur)] + lines_from(seq![], rest.drop_first())
    } else {
        lines_from(cur.push(rest[0]), rest.drop_first())
    }
}

/// The lines of `s`, as `str::lines` yields them.
pub open spec fn lines(s: Seq<char>) -> Seq<Seq<char>> {
    lines_from(seq![], s)
}

/// The character sequences held by `v`.
pub open spec fn views_of(v: Seq<Vec<char>>) -> Seq<Seq<char>> {
    v.map_values(|l: Vec<char>| l@)
}

/// The lines of `s`.
pub fn split_lines(s: &Vec<char>) -> (r: Vec<Vec<char>>)
    ensures
        views_of(r@) == lines(s@),
{
    let mut out: Vec<Vec<char>> = Vec::new();
    let mut cur: Vec<char> = Vec::new();
    let mut i: usize = 0;
    assert(s@.skip(0) =~= s@);
    while i < s.len()
        invariant
            i <= s.len(),
            views_of(out@) + lines_from(cur@, s@.skip(i as int)) == lines(s@),
        decreases s.len() - i,
    {
        let ghost rest = s@.skip(i as int);
        assert(rest.drop_first() =~= s@.skip(i + 1));
        let c = s[i];
        if c == '\n' {
            let line = if cur.len() > 0 && cur[cur.len() - 1] == '\r' {
                sub_chars(&cur, 0, cur.len() - 1)
            } else {
                cur
            };
            assert(line@ == strip_cr(cur@));
            let ghost before = views_of(out@);
            out.push(line);
            assert(views_of(out@) =~= before.push(strip_cr(cur@)));
            assert(before + (seq![strip_cr(cur@)] + lines_from(seq![], rest.drop_first()))
                =~= before.push(strip_cr(cur@)) + lines_from(seq![], rest.drop_first()));
            cur = Vec::new();
        } else {
            cur.push(c);
        }
        i = i + 1;
    }
    if cur.len() > 0 {
        let ghost before = views_of(out@);
        out.push(cur);
        assert(views_of(out@) =~= before + seq![cur@]);
    } else {
        assert(views_of(out@) + lines_from(cur@, s@.skip(i as int)) =~= views_of(out@));
    }
    out
}

/// Whether `s` holds no line feed.
pub open spec fn no_newline(s: Seq<char>) -> bool {
    forall|i: int| 0 <= i < s.len() ==> s[i] != '\n'
}

pub proof fn lemma_lines_have_no_newline(cur: Seq<char>, rest: Seq<char>)
    requires
        no_newline(cur),
    ensures
        forall|k: int| 0 <= k < lines_from(cur, rest).len() ==> no_newline(#[trigger] lines_from(cur, rest)[k]),
    decreases rest.len(),
{
    if rest.len() == 0 {
        assert(lines_from(cur, rest) == (if cur.len() == 0 { seq![] } else { seq![cur] }));
    } else if rest[0] == '\n' {
        lemma_lines_have_no_newline(seq![], rest.drop_first());
        let tail = lines_from(seq![], rest.drop_first());
        assert(lines_from(cur, rest) == seq![strip_cr(cur)] + tail);
        assert(no_newline(strip_cr(cur))) by {
            assert forall|i: int| 0 <= i < strip_cr(cur).len() implies strip_cr(cur)[i] != '\n' by {
                assert(strip_cr(cur)[i] == cur[i]);
            }
        }
        assert forall|k: int| 0 <= k < lines_from(cur, rest).len() implies no_newline(#[trigger] lines_from(cur, rest)[k]) by {
            if k > 0 {
                assert(lines_from(cur, rest)[k] == tail[k - 1]);
            }
        }
    } else {
        assert(lines_from(cur, rest) == lines_from(cur.push(rest[0]), rest.drop_first()));
        assert(no_newline(cur.push(rest[0]))) by {
            assert forall|i: int| 0 <= i < cur.push(rest[0]).len() implies cur.push(rest[0])[i] != '\n' by {
                if i < cur.len() {
                    assert(cur.push(rest[0])[i] == cur[i]);
                }
            }
        }
        lemma_lines_have_no_newline(cur.push(rest[0]), rest.drop_first());
    }
}

/// Splitting a text whose first part ends a line splits it in two.
pub proof fn lemma_lines_concat(cur: Seq<char>, a: Seq<char>, b: Seq<char>)
    requires
        (a.len() == 0 && cur.len() == 0) || (a.len() > 0 && a.last() == '\n'),
    ensures
        lines_from(cur, a + b) == lines_from(cur, a) + lines_from(seq![], b),
    decreases a.len(),
{
    if a.len() == 0 {
        assert(a + b =~= b);
        assert(cur =~= Seq::<char>::empty());
        assert(lines_from(cur, a) =~= Seq::<Seq<char>>::empty());
        assert(lines_from(cur, a) + lines_from(seq![], b) =~= lines_from(seq![], b));
    } else {
        assert((a + b)[0] == a[0]);
        assert((a + b).drop_first() =~= a.drop_first() + b);
        if a[0] == '\n' {
            lemma_lines_concat(seq![], a.drop_first(), b);
            assert(lines_from(cur, a + b) == seq![strip_cr(cur)] + lines_from(seq![], a.drop_first() + b));
            assert(lines_from(cur, a) == seq![strip_cr(cur)] + lines_from(seq![], a.drop_first()));
            assert(lines_from(cur, a + b) =~= lines_from(cur, a) + lines_from(seq![], b));
        } else {
            assert(a.drop_first().len() > 0 && a.drop_first().last() == '\n');
            lemma_lines_concat(cur.push(a[0]), a.drop_first(), b);
            assert(lines_from(cur, a + b) == lines_from(cur.push(a[0]), a.drop_first() + b));
            assert(lines_from(cur, a) == lines_from(cur.push(a[0]), a.drop_first()));
        }
    }
}

/// A text without line feeds is one line, or none if it is empty.
pub proof fn lemma_lines_single(cur: Seq<char>, x: Seq<char>)
    requires
        no_newline(x),
    ensures
        lines_from(cur, x) == (if (cur + x).len() == 0 { seq![] } else { seq![cur + x] }),
        lines_from(cur, x.push('\n')) == seq![strip_cr(cur + x)],
    decreases x.len(),
{
    if x.len() == 0 {
        assert(cur + x =~= cur);
        assert(x.push('\n')[0] == '\n');
        assert(x.push('\n').drop_first() =~= Seq::<char>::empty());
        assert(lines_from(cur, x.push('\n')) == seq![strip_cr(cur)] + lines_from(seq![], Seq::<char>::empty()));
        assert(lines_from(seq![], Seq::<char>::empty()) =~= Seq::<Seq<char>>::empty());
        assert(lines_from(cur, x.push('\n')) =~= seq![strip_cr(cur + x)]);
    } else {
        assert(x.push('\n')[0] == x[0]);
        assert(x.push('\n').drop_first() =~= x.drop_first().push('\n'));
        assert(cur.push(x[0]) + x.drop_first() =~= cur + x);
        assert(no_newline(x.drop_first())) by {
            assert forall|i: int| 0 <= i < x.drop_first().len() implies x.drop_first()[i] != '\n' by {
                assert(x.drop_first()[i] == x[i + 1]);
            }
        }
        lemma_lines_single(cur.push(x[0]), x.drop_first());
        assert(lines_from(cur, x.push('\n')) == lines_from(cur.push(x[0]), x.drop_first().push('\n')));
        assert(lines_from(cur, x) == lines_from(cur.push(x[0]), x.drop_first()));
    }
}

/// Adding a line feed to a text that does not end with one ends its last
/// line, dropping one carriage return from it.
pub proof fn lemma_lines_push_newline(cur: Seq<char>, a: Seq<char>)
    requires
        (cur + a).len() > 0,
        !(a.len() > 0 && a.last() == '\n'),
    ensures
        lines_from(cur, a).len() > 0,
        lines_from(cur, a.push('\n')) == lines_from(cur, a).drop_last().push(
            strip_cr(lines_from(cur, a).last()),
        ),
    decreases a.len(),
{
    if a.len() == 0 {
        assert(cur + a =~= cur);
        assert(a.push('\n')[0] == '\n');
        assert(a.push('\n').drop_first() =~= Seq::<char>::empty());
        assert(lines_from(cur, a.push('\n')) == seq![strip_cr(cur)] + lines_from(seq![], Seq::<char>::empty()));
        assert(lines_from(seq![], Seq::<char>::empty()) =~= Seq::<Seq<char>>::empty());
        assert(lines_from(cur, a) == seq![cur]);
        assert(lines_from(cur, a.push('\n')) =~= lines_from(cur, a).drop_last().push(
            strip_cr(lines_from(cur, a).last())));
    } else {
        assert(a.push('\n')[0] == a[0]);
        assert(a.push('\n').drop_first() =~= a.drop_first().push('\n'));
        if a[0] == '\n' {
            let rest = a.drop_first();
            assert(rest.len() > 0 && rest.last() == a.last());
            lemma_lines_push_newline(seq![], rest);
            let l = lines_from(seq![], rest);
            assert(lines_from(cur, a) == seq![strip_cr(cur)] + l);
            assert(lines_from(cur, a.push('\n')) == seq![strip_cr(cur)] + lines_from(seq![], rest.push('\n')));
            assert(lines_from(cur, a.push('\n')) =~= lines_from(cur, a).drop_last().push(
                strip_cr(lines_from(cur, a).last())));
        } else {
            assert(cur.push(a[0]) + a.drop_first() =~= cur + a);
            lemma_lines_push_newline(cur.push(a[0]), a.drop_first());
            assert(lines_from(cur, a.push('\n')) == lines_from(cur.push(a[0]), a.drop_first().push('\n')));
            assert(lines_from(cur, a) == lines_from(cur.push(a[0]), a.drop_first()));
        }
    }
}

/// The lines of `ls` joined and ended by line feeds are `ls`, each without
/// one trailing carriage return; without the final line feed, the last
/// line keeps its carriage return, and an empty last line is no line.
pub proof fn lemma_lines_of_join(ls: Seq<Seq<char>>)
    requires
        ls.len() > 0,
        forall|k: int| 0 <= k < ls.len() ==> no_newline(#[trigger] ls[k]),
    ensures
        lines(join_lines(ls) + seq!['\n']) == ls.map_values(|l: Seq<char>| strip_cr(l)),
        lines(join_lines(ls)) == ls.drop_last().map_values(|l: Seq<char>| strip_cr(l)) + (if ls.last().len() == 0 {
            seq![]
        } else {
            seq![ls.last()]
        }),
    decreases ls.len(),
{
    let last = ls.last();
    assert(no_newline(last));
    lemma_lines_single(seq![], last);
    assert(Seq::<char>::empty() + last =~= last);
    if ls.len() == 1 {
        assert(join_lines(ls) == ls[0]);
        assert(join_lines(ls) + seq!['\n'] =~= last.push('\n'));
        assert(ls.map_values(|l: Seq<char>| strip_cr(l)) =~= seq![strip_cr(last)]);
        assert(ls.drop_last().map_values(|l: Seq<char>| strip_cr(l)) =~= Seq::<Seq<char>>::empty());
        assert(lines(join_lines(ls)) =~= ls.drop_last().map_values(|l: Seq<char>| strip_cr(l)) + (if ls.last().len() == 0 {
            seq![]
        } else {
            seq![ls.last()]
        }));
    } else {
        let dl = ls.drop_last();
        assert forall|k: int| 0 <= k < dl.len() implies no_newline(#[trigger] dl[k]) by {
            assert(dl[k] == ls[k]);
        }
        lemma_lines_of_join(dl);
        let a = join_lines(dl) + seq!['\n'];
        assert(join_lines(ls) == join_lines(dl) + seq!['\n'] + last);
        assert(join_lines(ls) =~= a + last);
        assert(join_lines(ls) + seq!['\n'] =~= a + last.push('\n'));
        lemma_lines_concat(seq![], a, last);
        lemma_lines_concat(seq![], a, last.push('\n'));
        assert(ls.map_values(|l: Seq<char>| strip_cr(l)) =~= dl.map_values(|l: Seq<char>| strip_cr(l)) + seq![strip_cr(last)]);
        assert(lines(join_lines(ls)) =~= ls.drop_last().map_values(|l: Seq<char>| strip_cr(l)) + (if ls.last().len() == 0 {
            seq![]
        } else {
            seq![ls.last()]
        }));
    }
}

/// The pieces `ls` joined by `sep` (`[String]::join`).
pub open spec fn join_with(ls: Seq<Seq<char>>, sep: Seq<char>) -> Seq<char>
    decreases ls.len(),
{
    if ls.len() == 0 {
        seq![]
    } else if ls.len() == 1 {
        ls[0]
    } else {
        join_with(ls.drop_last(), sep) + sep + ls.last()
    }
}

/// The lines `ls` joined by line feeds.
pub open spec fn join_lines(ls: Seq<Seq<char>>) -> Seq<char> {
    join_with(ls, seq!['\n'])
}

/// The texts `parts` joined by `sep`.
pub fn join_strings(parts: &Vec<String>, sep: &str) -> (r: String)
    ensures
        r@ == join_with(parts@.map_values(|p: String| p@), sep@),
{
    let ghost pv = parts@.map_values(|p: String| p@);
    let mut out = String::new();
    let mut i: usize = 0;
    while i < parts.len()
        invariant
            i <= parts.len(),
            pv == parts@.map_values(|p: String| p@),
            out@ == join_with(pv.take(i as int), sep@),
        decreases parts.len() - i,
    {
        let ghost t = pv.take(i + 1);
        assert(t.drop_last() =~= pv.take(i as int));
        if i > 0 {
            push_str(&mut out, sep);
        } else {
            assert(out@ =~= Seq::<char>::empty());
        }
        push_str(&mut out, parts[i].as_str());
        assert(out@ =~= join_with(t, sep@));
        i = i + 1;
    }
    assert(pv.take(parts.len() as int) =~= pv);
    out
}

/// Whether `p` occurs in `s` starting at index `i`.
pub open spec fn occurs_at(s: Seq<char>, p: Seq<char>, i: int) -> bool {
    0 <= i && i + p.len() <= s.len() && s.subrange(i, i + p.len()) == p
}

/// Whether `p` occurs in `s` (`str::contains` with a string pattern).
pub open spec fn contains(s: Seq<char>, p: Seq<char>) -> bool {
    exists|i: int| occurs_at(s, p, i)
}

/// Whether `p` occurs in `s`.
pub fn contains_chars(s: &Vec<char>, p: &Vec<char>) -> (r: bool)
    ensures
        r == contains(s@, p@),
{
    if p.len() > s.len() {
        return false;
    }
    let last = s.len() - p.len();
    let mut i: usize = 0;
    loop
        invariant
            last == s.len() - p.len(),
            i <= last,
            forall|k: int| 0 <= k < i ==> !occurs_at(s@, p@, k),
        decreases last - i,
    {
        let mut j: usize = 0;
        let mut same = true;
        while j < p.len()
            invariant
                i <= last,
                last == s.len() - p.len(),
                j <= p.len(),
                same ==> forall|m: int| 0 <= m < j ==> s@[i + m] == p@[m],
                !same ==> !occurs_at(s@, p@, i as int),
            decreases p.len() - j,
        {
            if s[i + j] != p[j] {
                same = false;
                assert(s@.subrange(i as int, i + p.len())[j as int] != p@[j as int]);
            }
            j = j + 1;
        }
        if same {
            assert(s@.subrange(i as int, i + p.len()) =~= p@);
            assert(occurs_at(s@, p@, i as int));
            return true;
        }
        if i == last {
            assert forall|k: int| !occurs_at(s@, p@, k) by {
                if 0 <= k && k + p.len() <= s.len() {
                    assert(k <= i);
                }
            }
            return false;
        }
        i = i + 1;
    }
}

/// Appends the characters of `v` to `out`.
pub fn append_chars(out: &mut Vec<char>, v: &Vec<char>)
    ensures
        final(out)@ == old(out)@ + v@,
{
    let mut i: usize = 0;
    while i < v.len()
        invariant
            i <= v.len(),
            out@ == old(out)@ + v@.take(i as int),
        decreases v.len() - i,
    {
        out.push(v[i]);
        assert(v@.take(i + 1) =~= v@.take(i as int).push(v@[i as int]));
        i = i + 1;
    }
    assert(v@.take(v.len() as int) =~= v@);
}

/// `String::push`: appends the character `c` to `s`.
#[verifier::external_body]
fn push_char(s: &mut String, c: char)
    ensures
        final(s)@ == old(s)@.push(c),
{
    s.push(c)
}

/// `String::from_utf8`: the text that `bytes` encode in UTF-8, if they are
/// valid UTF-8 (the error, which only says where decoding stopped, is
/// dropped).
#[verifier::external_body]
pub(crate) fn string_from_utf8(bytes: Vec<u8>) -> (r: Option<String>)
    ensures
        r is Some <==> vstd::utf8::valid_utf8(bytes@),
        r matches Some(s) ==> s@ == vstd::utf8::decode_utf8(bytes@),
{
    String::from_utf8(bytes).ok()
}

/// A string holding the characters of `v`.
pub fn string_from_chars(v: &Vec<char>) -> (r: String)
    ensures
        r@ == v@,
{
    let mut r = String::new();
    let mut i: usize = 0;
    while i < v.len()
        invariant
            i <= v.len(),
            r@ == v@.take(i as int),
        decreases v.len() - i,
    {
        push_char(&mut r, v[i]);
        assert(v@.take(i + 1) =~= v@.take(i as int).push(v@[i as int]));
        i = i + 1;
    }
    assert(v@.take(v.len() as int) =~= v@);
    r
}

/// The decimal digit for `d`.
pub open spec fn digit_char(d: nat) -> char {
    if d == 0 { '0' }
    else if d == 1 { '1' }
    else if d == 2 { '2' }
    else if d == 3 { '3' }
    else if d == 4 { '4' }
    else if d == 5 { '5' }
    else if d == 6 { '6' }
    else if d == 7 { '7' }
    else if d == 8 { '8' }
    else { '9' }
}

/// The decimal representation of `n`, without leading zeros.
pub open spec fn decimal(n: nat) -> Seq<char>
    decreases n,
{
    if n < 10 {
        seq![digit_char(n)]
    } else {
        decimal(n / 10).push(digit_char(n % 10))
    }
}

/// The number a text of decimal digits stands for, read in base 10.
pub open spec fn digits_value(s: Seq<char>) -> int
    decreases s.len(),
{
    if s.len() == 0 {
        0
    } else {
        digits_value(s.drop_last()) * 10 + ((s.last() as int) - ('0' as int))
    }
}

proof fn lemma_digit_char_value(d: nat)
    requires
        d < 10,
    ensures
        (digit_char(d) as int) - ('0' as int) == d,
{
    assert(('0' as int) == 48);
    if d == 0 { assert(('0' as int) == 48); }
    else if d == 1 { assert(('1' as int) == 49); }
    else if d == 2 { assert(('2' as int) == 50); }
    else if d == 3 { assert(('3' as int) == 51); }
    else if d == 4 { assert(('4' as int) == 52); }
    else if d == 5 { assert(('5' as int) == 53); }
    else if d == 6 { assert(('6' as int) == 54); }
    else if d == 7 { assert(('7' as int) == 55); }
    else if d == 8 { assert(('8' as int) == 56); }
    else { assert(('9' as int) == 57); }
}

/// The decimal text of a number is made of the digits `0` to `9`, has no
/// leading zero (except for zero itself), and reads back as that number.
pub proof fn lemma_decimal_reads_back(n: nat)
    ensures
        decimal(n).len() >= 1,
        forall|i: int| 0 <= i < decimal(n).len() ==> '0' <= #[trigger] decimal(n)[i] <= '9',
        decimal(n)[0] == '0' ==> n == 0,
        digits_value(decimal(n)) == n,
    decreases n,
{
    if n < 10 {
        lemma_digit_char_value(n);
        assert(decimal(n) =~= seq![digit_char(n)]);
        assert(seq![digit_char(n)].drop_last() =~= Seq::<char>::empty());
        assert(digits_value(decimal(n)) == digits_value(Seq::<char>::empty()) * 10 + ((digit_char(n) as int)
            - ('0' as int)));
    } else {
        lemma_decimal_reads_back(n / 10);
        lemma_digit_char_value(n % 10);
        let d = decimal(n);
        assert(d.drop_last() =~= decimal(n / 10));
        assert(d[0] == decimal(n / 10)[0]);
        assert forall|i: int| 0 <= i < d.len() implies '0' <= #[trigger] d[i] <= '9' by {
            if i < d.len() - 1 {
                assert(d[i] == decimal(n / 10)[i]);
            }
        }
        assert(d.last() == digit_char(n % 10));
        assert(digits_value(d) == digits_value(decimal(n / 10)) * 10 + ((digit_char(n % 10) as int) - ('0' as int)));
        assert(n == (n / 10) * 10 + n % 10);
    }
}

fn digit(d: usize) -> (c: char)
    requires
        d < 10,
    ensures
        c == digit_char(d as nat),
{
    if d == 0 { '0' }
    else if d == 1 { '1' }
    else if d == 2 { '2' }
    else if d == 3 { '3' }
    else if d == 4 { '4' }
    else if d == 5 { '5' }
    else if d == 6 { '6' }
    else if d == 7 { '7' }
    else if d == 8 { '8' }
    else { '9' }
}

/// Appends the decimal representation of `n` to `out`.
pub fn push_decimal(out: &mut String, n: usize)
    ensures
        final(out)@ == old(out)@ + decimal(n as nat),
    decreases n,
{
    if n < 10 {
        push_char(out, digit(n));
        assert(old(out)@.push(digit_char(n as nat)) =~= old(out)@ + decimal(n as nat));
    } else {
        push_decimal(out, n / 10);
        push_char(out, digit(n % 10));
        assert(old(out)@ + decimal((n / 10) as nat) + seq![digit_char((n % 10) as nat)]
            =~= old(out)@ + decimal(n as nat));
    }
}

/// Appends `s` to `out`.
pub fn push_str(out: &mut String, s: &str)
    ensures
        final(out)@ == old(out)@ + s@,
{
    out.append(s);
}

} // verus!
