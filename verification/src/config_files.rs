//! The configuration files that `shield` hardens: `scrutt.toml` and the
//! `ignore-scripts` setting of `.npmrc`.

use vstd::prelude::*;
use crate::error::{NpmrcPatchIssue, ScruttError};
use crate::text;

verus! {

broadcast use vstd::string::group_string_axioms;

/// What a command did to a configuration file.
#[derive(Clone, Copy, Debug, PartialEq, Eq, Structural)]
pub enum FileChange {
    Created,
    Updated,
    Unchanged,
}

/// What `shield` did to each of the files it manages.
#[derive(Clone, Copy, Debug, PartialEq, Eq, Structural)]
pub struct ShieldOutcome {
    pub scrutt_toml: FileChange,
    pub npmrc: FileChange,
}

/// The `ignore-scripts` value that `line` sets, if it sets one: the line is
/// not a comment (`#` or `;` after leading whitespace), its key (up to the
/// first `=`, trimmed) is `ignore-scripts`, and the value is the rest after
/// that `=`, trimmed.
pub open spec fn ignore_scripts_value(line: Seq<char>) -> Option<Seq<char>> {
    let t = text::trim_start(line);
    if t.len() > 0 && (t[0] == '#' || t[0] == ';') {
        None
    } else {
        match text::index_of(t, '=') {
            Some(i) => if text::trim(t.take(i)) == "ignore-scripts"@ {
                Some(text::trim(t.skip(i + 1)))
            } else {
                None
            },
            None => None,
        }
    }
}

/// The value of the first line of `ls` that sets `ignore-scripts`.
pub open spec fn first_setting(ls: Seq<Seq<char>>) -> Option<Seq<char>>
    decreases ls.len(),
{
    if ls.len() == 0 {
        None
    } else {
        match ignore_scripts_value(ls[0]) {
            Some(v) => Some(v),
            None => first_setting(ls.drop_first()),
        }
    }
}

/// Whether some line of `ls` sets `ignore-scripts` to a value other than `first`.
pub open spec fn has_conflict(ls: Seq<Seq<char>>, first: Seq<char>) -> bool {
    exists|j: int| 0 <= j < ls.len() && (ignore_scripts_value(#[trigger] ls[j]) matches Some(v) && v != first)
}

/// `line` with its setting replaced by `ignore-scripts=true`, its leading
/// whitespace kept.
pub open spec fn rewritten_line(line: Seq<char>) -> Seq<char> {
    text::leading_whitespace(line) + "ignore-scripts=true"@
}

/// `ls` with every `ignore-scripts` line rewritten.
pub open spec fn rewritten_lines(ls: Seq<Seq<char>>) -> Seq<Seq<char>> {
    ls.map_values(|l: Seq<char>| if ignore_scripts_value(l) is Some { rewritten_line(l) } else { l })
}

/// Whether `c` ends with a line feed.
pub open spec fn ends_with_newline(c: Seq<char>) -> bool {
    c.len() > 0 && c.last() == '\n'
}

/// The text that makes `.npmrc` set `ignore-scripts=true`, starting from
/// its current text `c`; `None` where `c` sets `ignore-scripts` to two
/// different values.
/// - No line sets it: the line `ignore-scripts=true` is appended, after a
///   line feed if `c` is not empty and does not end with one.
/// - The first setting is `true` (and no other differs): `c` as it is.
/// - Otherwise every setting line is rewritten, and the lines are joined
///   by `\n`, with a final `\n` where `c` had one.
pub open spec fn patched_npmrc(c: Seq<char>) -> Option<Seq<char>> {
    let ls = text::lines(c);
    match first_setting(ls) {
        None => Some(
            c + (if c.len() > 0 && c.last() != '\n' { seq!['\n'] } else { seq![] })
                + "ignore-scripts=true\n"@,
        ),
        Some(first) => if has_conflict(ls, first) {
            None
        } else if first == "true"@ {
            Some(c)
        } else {
            Some(
                text::join_lines(rewritten_lines(ls)) + (if ends_with_newline(c) {
                    seq!['\n']
                } else {
                    seq![]
                }),
            )
        },
    }
}

/// Whether the `.npmrc` text `c` sets `ignore-scripts`, and only ever
/// to `true`.
pub open spec fn ignore_scripts_enabled(c: Seq<char>) -> bool {
    let ls = text::lines(c);
    &&& exists|j: int| 0 <= j < ls.len() && ignore_scripts_value(#[trigger] ls[j]) is Some
    &&& forall|j: int|
        0 <= j < ls.len() ==> (ignore_scripts_value(#[trigger] ls[j]) matches Some(v) ==> v == "true"@)
}

/// Patching leaves `.npmrc` as it is exactly when it already sets
/// `ignore-scripts`, and only ever to `true`.
pub proof fn lemma_npmrc_kept_iff_enabled(c: Seq<char>)
    ensures
        patched_npmrc(c) == Some(c) <==> ignore_scripts_enabled(c),
{
    lemma_enabled_npmrc_is_kept(c);
    lemma_patched_npmrc_enables(c);
}

/// A text that already enables `ignore-scripts` is left as it is.
pub proof fn lemma_enabled_npmrc_is_kept(c: Seq<char>)
    ensures
        ignore_scripts_enabled(c) ==> patched_npmrc(c) == Some(c),
{
    let ls = text::lines(c);
    lemma_first_setting(ls);
    if ignore_scripts_enabled(c) {
        let j = choose|j: int| 0 <= j < ls.len() && ignore_scripts_value(#[trigger] ls[j]) is Some;
        assert(first_setting(ls) is Some);
        let f = first_setting(ls)->0;
        let k = choose|k: int| 0 <= k < ls.len() && ignore_scripts_value(#[trigger] ls[k]) == Some(f);
        assert(f == "true"@);
        assert(!has_conflict(ls, f));
    }
}

/// Patching `.npmrc` always leaves it setting `ignore-scripts`, and only
/// ever to `true`.
pub proof fn lemma_patched_npmrc_enables(c: Seq<char>)
    ensures
        patched_npmrc(c) matches Some(p) ==> ignore_scripts_enabled(p),
{
    reveal_strlit("ignore-scripts=true\n");
    reveal_strlit("ignore-scripts=true");
    let ls = text::lines(c);
    let e = "ignore-scripts=true"@;
    let b = "ignore-scripts=true\n"@;
    lemma_first_setting(ls);
    text::lemma_lines_have_no_newline(seq![], c);
    assert(text::no_newline(Seq::<char>::empty()));
    match first_setting(ls) {
        None => {
            // The baseline line is appended.
            assert(b =~= e.push('\n'));
            assert(text::no_newline(e));
            text::lemma_lines_single(seq![], e);
            assert(Seq::<char>::empty() + e =~= e);
            assert(text::strip_cr(e) == e);
            assert(text::lines(b) == seq![e]);
            lemma_rewritten_line(Seq::<char>::empty());
            assert(rewritten_line(Seq::<char>::empty()) =~= e);
            let p = patched_npmrc(c)->0;
            // `head` is the part of `p` before the baseline line.
            let head = c + (if c.len() > 0 && c.last() != '\n' { seq!['\n'] } else { seq![] });
            assert(p == head + b);
            let hl = text::lines(head);
            assert(forall|k: int| 0 <= k < hl.len() ==> ignore_scripts_value(#[trigger] hl[k]) is None) by {
                if c.len() == 0 {
                    assert(head =~= Seq::<char>::empty());
                    assert(hl =~= Seq::<Seq<char>>::empty());
                } else if c.last() == '\n' {
                    assert(head =~= c);
                } else {
                    assert(head =~= c.push('\n'));
                    assert(Seq::<char>::empty() + c =~= c);
                    text::lemma_lines_push_newline(seq![], c);
                    assert forall|k: int| 0 <= k < hl.len() implies ignore_scripts_value(#[trigger] hl[k]) is None by {
                        if k < ls.len() - 1 {
                            assert(hl[k] == ls[k]);
                        } else {
                            lemma_value_strip_cr(ls.last());
                        }
                    }
                }
            }
            if head.len() == 0 {
                assert(head + b =~= b);
            } else {
                assert(head.last() == '\n');
            }
            text::lemma_lines_concat(seq![], head, b);
            let pl = text::lines(p);
            assert(pl == hl + seq![e]);
            assert(ignore_scripts_value(pl[hl.len() as int]) is Some);
            assert forall|j: int| 0 <= j < pl.len() implies (ignore_scripts_value(#[trigger] pl[j]) matches Some(v) ==> v == "true"@) by {
                if j < hl.len() {
                    assert(pl[j] == hl[j]);
                }
            }
        },
        Some(f) => {
            if !has_conflict(ls, f) && f != "true"@ {
                let rw = rewritten_lines(ls);
                let j0 = choose|j: int| 0 <= j < ls.len() && ignore_scripts_value(#[trigger] ls[j]) == Some(f);
                assert forall|k: int| 0 <= k < rw.len() implies text::no_newline(#[trigger] rw[k]) && (
                    ignore_scripts_value(rw[k]) == if ignore_scripts_value(ls[k]) is Some {
                        Some("true"@)
                    } else {
                        None
                    }) by {
                    if ignore_scripts_value(ls[k]) is Some {
                        lemma_rewritten_line(ls[k]);
                    }
                }
                let p = patched_npmrc(c)->0;
                text::lemma_lines_of_join(rw);
                let pl = text::lines(p);
                if ends_with_newline(c) {
                    assert(pl == rw.map_values(|l: Seq<char>| text::strip_cr(l)));
                    assert forall|j: int| 0 <= j < pl.len() implies ignore_scripts_value(#[trigger] pl[j]) == ignore_scripts_value(rw[j]) by {
                        lemma_value_strip_cr(rw[j]);
                    }
                    assert(ignore_scripts_value(pl[j0]) is Some);
                } else {
                    assert(p =~= text::join_lines(rw));
                    let n = rw.len();
                    assert forall|j: int| 0 <= j < pl.len() implies ignore_scripts_value(#[trigger] pl[j]) == ignore_scripts_value(rw[j]) by {
                        if j < n - 1 {
                            lemma_value_strip_cr(rw[j]);
                        }
                    }
                    if j0 == n - 1 {
                        lemma_rewritten_line(ls[j0]);
                        assert(rw.last().len() > 0);
                    }
                    assert(ignore_scripts_value(pl[j0]) is Some);
                }
            } else if !has_conflict(ls, f) {
                let k = choose|k: int| 0 <= k < ls.len() && ignore_scripts_value(#[trigger] ls[k]) == Some(f);
            }
        },
    }
}

/// Patching `.npmrc` a second time changes nothing.
pub proof fn lemma_patch_npmrc_idempotent(c: Seq<char>)
    ensures
        patched_npmrc(c) matches Some(p) ==> patched_npmrc(p) == Some(p),
{
    lemma_patched_npmrc_enables(c);
    if let Some(p) = patched_npmrc(c) {
        lemma_enabled_npmrc_is_kept(p);
    }
}

/// The `ignore-scripts` value that `line` sets, if any.
pub fn parse_ignore_scripts_value(line: &Vec<char>) -> (r: Option<Vec<char>>)
    ensures
        match r {
            Some(v) => ignore_scripts_value(line@) == Some(v@),
            None => ignore_scripts_value(line@) is None,
        },
{
    let lead = text::leading_whitespace_len(line);
    let t = text::sub_chars(line, lead, line.len());
    assert(t@ == text::trim_start(line@));
    if t.len() > 0 && (t[0] == '#' || t[0] == ';') {
        return None;
    }
    match text::find_char(&t, '=') {
        Some(i) => {
            proof { text::lemma_index_of(t@, '='); }
            let key = text::trimmed(&text::sub_chars(&t, 0, i));
            assert(t@.subrange(0, i as int) =~= t@.take(i as int));
            let expected = text::str_chars("ignore-scripts");
            if text::chars_equal(&key, &expected) {
                let value = text::trimmed(&text::sub_chars(&t, i + 1, t.len()));
                assert(t@.subrange(i + 1, t@.len() as int) =~= t@.skip(i + 1));
                Some(value)
            } else {
                None
            }
        },
        None => None,
    }
}

/// `line` with its setting replaced by `ignore-scripts=true`.
pub fn rewrite_ignore_scripts_line(line: &Vec<char>) -> (r: Vec<char>)
    ensures
        r@ == rewritten_line(line@),
{
    let lead = text::leading_whitespace_len(line);
    let mut r = text::sub_chars(line, 0, lead);
    let tail = text::str_chars("ignore-scripts=true");
    let mut i: usize = 0;
    let ghost start = r@;
    while i < tail.len()
        invariant
            i <= tail.len(),
            r@ == start + tail@.take(i as int),
        decreases tail.len() - i,
    {
        r.push(tail[i]);
        assert(tail@.take(i + 1) =~= tail@.take(i as int).push(tail@[i as int]));
        i = i + 1;
    }
    assert(tail@.take(tail.len() as int) =~= tail@);
    assert(start =~= text::leading_whitespace(line@));
    r
}


/// A carriage return at the end of a line does not change its setting.
pub proof fn lemma_value_strip_cr(l: Seq<char>)
    ensures
        ignore_scripts_value(text::strip_cr(l)) == ignore_scripts_value(l),
{
    if l.len() > 0 && l.last() == '\r' {
        let m = l.drop_last();
        assert(m.push('\r') =~= l);
        text::lemma_trim_start_push(m, '\r');
        let t = text::trim_start(l);
        let t2 = text::trim_start(m);
        if t2.len() == 0 {
            assert(seq!['\r'].drop_first() =~= Seq::<char>::empty());
            assert(text::trim_start(seq!['\r']) == text::trim_start(Seq::<char>::empty()));
            assert(t.len() == 0);
            assert(text::index_of(t, '=') is None);
            assert(text::index_of(t2, '=') is None);
        } else {
            assert(t == t2.push('\r'));
            assert(t[0] == t2[0]);
            text::lemma_index_of_push(t2, '\r', '=');
            text::lemma_index_of(t2, '=');
            if let Some(i) = text::index_of(t2, '=') {
                assert(t.take(i) =~= t2.take(i));
                assert(t.skip(i + 1) =~= t2.skip(i + 1).push('\r'));
                text::lemma_trim_push_whitespace(t2.skip(i + 1), '\r');
            }
        }
    }
}

/// A rewritten line sets `ignore-scripts` to `true`, holds no line feed
/// where the line held none, and is not empty.
pub proof fn lemma_rewritten_line(l: Seq<char>)
    requires
        text::no_newline(l),
    ensures
        ignore_scripts_value(rewritten_line(l)) == Some("true"@),
        text::no_newline(rewritten_line(l)),
        rewritten_line(l).len() > 0,
{
    reveal_strlit("ignore-scripts=true");
    reveal_strlit("ignore-scripts");
    reveal_strlit("true");
    let e = "ignore-scripts=true"@;
    let w = text::leading_whitespace(l);
    text::lemma_trim_start_is_suffix(l);
    assert forall|i: int| 0 <= i < w.len() implies text::spec_is_whitespace(#[trigger] w[i]) by {
        assert(w[i] == l[i]);
    }
    text::lemma_trim_start_after_whitespace(w, e);
    assert(!text::spec_is_whitespace(e[0]));
    assert(text::trim_start(e) == e);
    assert(text::trim_start(rewritten_line(l)) == e);
    text::lemma_index_of(e, '=');
    assert(e[14] == '=');
    assert(text::index_of(e, '=') == Some(14int));
    let key = e.take(14);
    assert(text::trim_start(key) == key);
    assert(text::trim_end(key) == key);
    assert(key =~= "ignore-scripts"@);
    let value = e.skip(15);
    assert(text::trim_start(value) == value);
    assert(text::trim_end(value) == value);
    assert(value =~= "true"@);
    assert forall|i: int| 0 <= i < rewritten_line(l).len() implies rewritten_line(l)[i] != '\n' by {
        if i < w.len() {
            assert(rewritten_line(l)[i] == l[i]);
        } else {
            assert(rewritten_line(l)[i] == e[i - w.len()]);
        }
    }
}

/// The first setting is `None` exactly when no line sets `ignore-scripts`,
/// and is otherwise the value some line sets.
pub proof fn lemma_first_setting(ls: Seq<Seq<char>>)
    ensures
        first_setting(ls) is None <==> forall|j: int| 0 <= j < ls.len() ==> ignore_scripts_value(#[trigger] ls[j]) is None,
        first_setting(ls) matches Some(f) ==> exists|j: int| 0 <= j < ls.len() && ignore_scripts_value(#[trigger] ls[j]) == Some(f),
    decreases ls.len(),
{
    if ls.len() > 0 {
        lemma_first_setting(ls.drop_first());
        if ignore_scripts_value(ls[0]) is None {
            assert forall|j: int| 0 < j < ls.len() implies ls[j] == ls.drop_first()[j - 1] by {}
            if let Some(f) = first_setting(ls) {
                let j = choose|j: int| 0 <= j < ls.drop_first().len() && ignore_scripts_value(#[trigger] ls.drop_first()[j]) == Some(f);
                assert(ls[j + 1] == ls.drop_first()[j]);
            }
        }
    }
}

/// The first setting among one more line.
pub proof fn lemma_first_setting_take(ls: Seq<Seq<char>>, i: int)
    requires
        0 <= i < ls.len(),
    ensures
        first_setting(ls.take(i + 1)) == (match first_setting(ls.take(i)) {
            Some(v) => Some(v),
            None => ignore_scripts_value(ls[i]),
        }),
    decreases i,
{
    if i == 0 {
        assert(ls.take(1).drop_first() =~= ls.take(0));
    } else {
        lemma_first_setting_take(ls.drop_first(), i - 1);
        assert(ls.take(i + 1).drop_first() =~= ls.drop_first().take(i));
        assert(ls.take(i).drop_first() =~= ls.drop_first().take(i - 1));
        assert(ls.take(i + 1)[0] == ls[0]);
        assert(ls.take(i)[0] == ls[0]);
    }
}

/// The text that makes `.npmrc` set `ignore-scripts=true`, from its
/// current text; an error where the text sets `ignore-scripts` to two
/// different values.
pub fn patch_npmrc(contents: &str, path: &str) -> (r: Result<String, ScruttError>)
    ensures
        match r {
            Ok(s) => patched_npmrc(contents@) == Some(s@),
            Err(e) => patched_npmrc(contents@) is None && (e matches ScruttError::InvalidNpmrcState {
                path: p,
                reason,
            } && p@ == path@ && reason == NpmrcPatchIssue::ConflictingDuplicateKeys),
        },
{
    let chars = text::str_chars(contents);
    let ls = text::split_lines(&chars);
    let ghost lv = text::lines(contents@);
    assert(text::views_of(ls@) == lv);
    let n = ls.len();
    let mut first: Option<Vec<char>> = None;
    let mut conflict = false;
    let mut i: usize = 0;
    while i < n
        invariant
            n == ls.len() == lv.len(),
            text::views_of(ls@) == lv,
            i <= n,
            match first {
                Some(f) => first_setting(lv.take(i as int)) == Some(f@),
                None => first_setting(lv.take(i as int)) is None,
            },
            conflict == (first_setting(lv.take(i as int)) matches Some(f) && has_conflict(lv.take(i as int), f)),
        decreases n - i,
    {
        proof {
            lemma_first_setting_take(lv, i as int);
            lemma_first_setting(lv.take(i as int));
        }
        assert(ls@[i as int]@ == lv[i as int]);
        let value = parse_ignore_scripts_value(&ls[i]);
        let ghost take_next = lv.take(i + 1);
        match value {
            Some(v) => {
                match &first {
                    None => {
                        assert(!has_conflict(take_next, v@)) by {
                            assert forall|j: int| 0 <= j < take_next.len() implies !(ignore_scripts_value(#[trigger] take_next[j]) matches Some(w) && w != v@) by {
                                if j < i {
                                    assert(take_next[j] == lv.take(i as int)[j]);
                                }
                            }
                        }
                        first = Some(v);
                    },
                    Some(f) => {
                        if !text::chars_equal(f, &v) {
                            assert(take_next[i as int] == lv[i as int]);
                            conflict = true;
                        }
                        proof {
                            let ff = f@;
                            if has_conflict(take_next, ff) && !has_conflict(lv.take(i as int), ff) {
                                let j = choose|j: int| 0 <= j < take_next.len() && (ignore_scripts_value(#[trigger] take_next[j]) matches Some(w) && w != ff);
                                if j < i {
                                    assert(take_next[j] == lv.take(i as int)[j]);
                                }
                            }
                            if has_conflict(lv.take(i as int), ff) {
                                let j = choose|j: int| 0 <= j < lv.take(i as int).len() && (ignore_scripts_value(#[trigger] lv.take(i as int)[j]) matches Some(w) && w != ff);
                                assert(take_next[j] == lv.take(i as int)[j]);
                            }
                        }
                    },
                }
            },
            None => {
                proof {
                    if let Some(f) = first_setting(lv.take(i as int)) {
                        if has_conflict(take_next, f) {
                            let j = choose|j: int| 0 <= j < take_next.len() && (ignore_scripts_value(#[trigger] take_next[j]) matches Some(w) && w != f);
                            assert(j < i);
                            assert(take_next[j] == lv.take(i as int)[j]);
                        }
                        if has_conflict(lv.take(i as int), f) {
                            let j = choose|j: int| 0 <= j < lv.take(i as int).len() && (ignore_scripts_value(#[trigger] lv.take(i as int)[j]) matches Some(w) && w != f);
                            assert(take_next[j] == lv.take(i as int)[j]);
                        }
                    }
                }
            },
        }
        i = i + 1;
    }
    assert(lv.take(n as int) =~= lv);
    match first {
        None => {
            let mut out = text::sub_chars(&chars, 0, chars.len());
            assert(out@ =~= contents@);
            if chars.len() > 0 && chars[chars.len() - 1] != '\n' {
                out.push('\n');
            }
            let baseline = text::str_chars("ignore-scripts=true\n");
            text::append_chars(&mut out, &baseline);
            Ok(text::string_from_chars(&out))
        },
        Some(f) => {
            if conflict {
                return Err(
                    ScruttError::InvalidNpmrcState {
                        path: path.to_owned(),
                        reason: NpmrcPatchIssue::ConflictingDuplicateKeys,
                    },
                );
            }
            let enabled = text::str_chars("true");
            if text::chars_equal(&f, &enabled) {
                return Ok(contents.to_owned());
            }
            let ghost rw = rewritten_lines(lv);
            let mut out: Vec<char> = Vec::new();
            let mut k: usize = 0;
            while k < n
                invariant
                    n == ls.len() == lv.len() == rw.len(),
                    text::views_of(ls@) == lv,
                    rw == rewritten_lines(lv),
                    k <= n,
                    out@ == text::join_lines(rw.take(k as int)),
                decreases n - k,
            {
                assert(ls@[k as int]@ == lv[k as int]);
                let line = match parse_ignore_scripts_value(&ls[k]) {
                    Some(_) => rewrite_ignore_scripts_line(&ls[k]),
                    None => text::sub_chars(&ls[k], 0, ls[k].len()),
                };
                assert(line@ =~= rw[k as int]);
                let ghost before = out@;
                if k > 0 {
                    out.push('\n');
                }
                text::append_chars(&mut out, &line);
                proof {
                    let t = rw.take(k + 1);
                    if k == 0 {
                        assert(before =~= Seq::<char>::empty());
                        assert(text::join_lines(t) == t[0]);
                    } else {
                        assert(t.drop_last() =~= rw.take(k as int));
                        assert(text::join_lines(t) == text::join_lines(t.drop_last()) + seq!['\n'] + t.last());
                    }
                }
                k = k + 1;
            }
            assert(rw.take(n as int) =~= rw);
            if chars.len() > 0 && chars[chars.len() - 1] == '\n' {
                out.push('\n');
            } else {
                assert(out@ + Seq::<char>::empty() =~= out@);
            }
            Ok(text::string_from_chars(&out))
        },
    }
}


/// The contents `shield` gives a new `scrutt.toml`.
pub const SCRUTT_TOML_BASELINE: &'static str = "[shield]\nignore_scripts = true\n";

/// The contents `shield` gives a new `.npmrc`.
pub const NPMRC_BASELINE_LINE: &'static str = "ignore-scripts=true\n";

/// What `shield` does to one configuration file: how it changes, and the
/// text to write, if any.
pub struct FileUpdate {
    pub change: FileChange,
    pub contents: Option<String>,
}

/// The views of a `FileUpdate`.
pub open spec fn update_view(u: FileUpdate) -> (FileChange, Option<Seq<char>>) {
    (u.change, match u.contents { Some(t) => Some(t@), None => None })
}

/// What `shield` does to `scrutt.toml`, given whether it exists: an
/// existing file is left as it is, a missing one is created with the
/// baseline settings.
pub open spec fn scrutt_toml_plan(exists: bool) -> (FileChange, Option<Seq<char>>) {
    if exists {
        (FileChange::Unchanged, None)
    } else {
        (FileChange::Created, Some(SCRUTT_TOML_BASELINE@))
    }
}

/// What to do to `scrutt.toml`, given whether it exists.
pub fn scrutt_toml_update(exists: bool) -> (r: FileUpdate)
    ensures
        update_view(r) == scrutt_toml_plan(exists),
{
    if exists {
        FileUpdate { change: FileChange::Unchanged, contents: None }
    } else {
        FileUpdate { change: FileChange::Created, contents: Some(SCRUTT_TOML_BASELINE.to_owned()) }
    }
}

/// What `shield` does to `.npmrc`, given the bytes it holds (`None` where
/// it does not exist): the change and the text to write, or why it cannot.
pub open spec fn npmrc_plan(existing: Option<Seq<u8>>) -> Result<(FileChange, Option<Seq<char>>), NpmrcPatchIssue> {
    match existing {
        None => Ok((FileChange::Created, Some(NPMRC_BASELINE_LINE@))),
        Some(bytes) => if !vstd::utf8::valid_utf8(bytes) {
            Err(NpmrcPatchIssue::NonUtf8Content)
        } else {
            let c = vstd::utf8::decode_utf8(bytes);
            match patched_npmrc(c) {
                None => Err(NpmrcPatchIssue::ConflictingDuplicateKeys),
                Some(t) => if t == c {
                    Ok((FileChange::Unchanged, None))
                } else {
                    Ok((FileChange::Updated, Some(t)))
                },
            }
        },
    }
}

/// The change reported for `.npmrc` says what happens to it: a missing
/// file is created with the baseline line; an existing file is never
/// reported as created; its text is rewritten (and reported as updated)
/// exactly when the patched text differs from what it holds, and the new
/// text is the patched text; otherwise it is reported as unchanged and
/// nothing is written.
pub proof fn lemma_npmrc_change_matches_text(existing: Option<Seq<u8>>)
    ensures
        existing is None ==> npmrc_plan(existing) == Ok::<(FileChange, Option<Seq<char>>), NpmrcPatchIssue>(
            (FileChange::Created, Some(NPMRC_BASELINE_LINE@)),
        ),
        existing is Some ==> !(npmrc_plan(existing) matches Ok((FileChange::Created, _))),
        existing is Some && vstd::utf8::valid_utf8(existing->0) && patched_npmrc(
            vstd::utf8::decode_utf8(existing->0),
        ) is Some ==> {
            (npmrc_plan(existing) == Ok::<(FileChange, Option<Seq<char>>), NpmrcPatchIssue>(
                (FileChange::Updated, Some(patched_npmrc(vstd::utf8::decode_utf8(existing->0))->0)),
            )) == (patched_npmrc(vstd::utf8::decode_utf8(existing->0))->0 != vstd::utf8::decode_utf8(
                existing->0,
            ))
        },
        existing is Some && vstd::utf8::valid_utf8(existing->0) && patched_npmrc(
            vstd::utf8::decode_utf8(existing->0),
        ) is Some ==> {
            (npmrc_plan(existing) == Ok::<(FileChange, Option<Seq<char>>), NpmrcPatchIssue>(
                (FileChange::Unchanged, None),
            )) == (patched_npmrc(vstd::utf8::decode_utf8(existing->0))->0 == vstd::utf8::decode_utf8(
                existing->0,
            ))
        },
{
}

/// What to do to the `.npmrc` at `path`, given the bytes it holds (`None`
/// where it does not exist).
pub fn npmrc_update(path: &str, existing: Option<Vec<u8>>) -> (r: Result<FileUpdate, ScruttError>)
    ensures
        match (r, npmrc_plan(match existing { Some(b) => Some(b@), None => None })) {
            (Ok(u), Ok(plan)) => update_view(u) == plan,
            (Err(e), Err(issue)) => (e matches ScruttError::InvalidNpmrcState { path: p, reason }
                && p@ == path@ && reason == issue),
            _ => false,
        },
{
    match existing {
        None => Ok(FileUpdate { change: FileChange::Created, contents: Some(NPMRC_BASELINE_LINE.to_owned()) }),
        Some(bytes) => {
            let ghost b = bytes@;
            match text::string_from_utf8(bytes) {
                None => Err(ScruttError::InvalidNpmrcState {
                    path: path.to_owned(),
                    reason: NpmrcPatchIssue::NonUtf8Content,
                }),
                Some(contents) => {
                    let desired = patch_npmrc(contents.as_str(), path)?;
                    if desired == contents {
                        Ok(FileUpdate { change: FileChange::Unchanged, contents: None })
                    } else {
                        Ok(FileUpdate { change: FileChange::Updated, contents: Some(desired) })
                    }
                },
            }
        },
    }
}

/// Once `shield` has written `.npmrc`, running it again leaves the file
/// as it is.
pub proof fn lemma_npmrc_update_idempotent(existing: Option<Seq<u8>>)
    ensures
        npmrc_plan(existing) matches Ok((_, Some(t))) ==> npmrc_plan(Some(vstd::utf8::encode_utf8(t)))
            == Ok::<(FileChange, Option<Seq<char>>), NpmrcPatchIssue>((FileChange::Unchanged, None)),
{
    if let Ok((_, Some(t))) = npmrc_plan(existing) {
        vstd::utf8::encode_utf8_valid_utf8(t);
        vstd::utf8::encode_utf8_decode_utf8(t);
        match existing {
            None => {
                let empty = Seq::<char>::empty();
                assert(patched_npmrc(empty) == Some(t)) by {
                    assert(text::lines(empty) =~= Seq::<Seq<char>>::empty());
                    assert(empty + Seq::<char>::empty() + NPMRC_BASELINE_LINE@ =~= t);
                }
                lemma_patch_npmrc_idempotent(empty);
            },
            Some(bytes) => {
                lemma_patch_npmrc_idempotent(vstd::utf8::decode_utf8(bytes));
            },
        }
    }
}


/// The bytes a configuration file holds once `shield` wrote `written` to
/// it (if anything), given the bytes it held before (`None`: no file).
pub open spec fn after_plan(before: Option<Seq<u8>>, written: Option<Seq<char>>) -> Option<Seq<u8>> {
    match written {
        Some(t) => Some(vstd::utf8::encode_utf8(t)),
        None => before,
    }
}

/// Once `shield` has succeeded, running it again changes nothing: both
/// `scrutt.toml` (which then exists) and `.npmrc` (holding what was
/// written to it, or what it held) come out `Unchanged`, with nothing to
/// write.
pub proof fn lemma_shield_idempotent(npmrc: Option<Seq<u8>>)
    ensures
        npmrc_plan(npmrc) matches Ok((_, written)) ==> {
            &&& scrutt_toml_plan(true) == (FileChange::Unchanged, None::<Seq<char>>)
            &&& npmrc_plan(after_plan(npmrc, written))
                == Ok::<(FileChange, Option<Seq<char>>), NpmrcPatchIssue>((FileChange::Unchanged, None))
        },
{
    lemma_npmrc_update_idempotent(npmrc);
}

} // verus!
