//! The audit of `node_modules`: which entries it looks at, what it reports
//! for the text of each JavaScript file, and the order of its report.

use vstd::prelude::*;
use crate::path::{self, Part};
use crate::text;

verus! {

broadcast use vstd::string::group_string_axioms;

/// Files larger than this are not scanned.
pub const MAX_FILE_SIZE_BYTES: u64 = 1048576;

/// A pattern an audit reports.
#[derive(Clone, Copy, Debug, Eq, Ord, PartialEq, PartialOrd, Structural)]
pub enum AuditRule {
    EvalUsage,
    ChildProcessExec,
    ChildProcessSpawn,
}

/// The name a rule is reported under.
pub open spec fn rule_name(rule: AuditRule) -> Seq<char> {
    match rule {
        AuditRule::EvalUsage => "eval-usage"@,
        AuditRule::ChildProcessExec => "child-process-exec"@,
        AuditRule::ChildProcessSpawn => "child-process-spawn"@,
    }
}

/// The order of the rules (their declaration order).
pub open spec fn rule_rank(rule: AuditRule) -> int {
    match rule {
        AuditRule::EvalUsage => 0,
        AuditRule::ChildProcessExec => 1,
        AuditRule::ChildProcessSpawn => 2,
    }
}

impl AuditRule {
    /// The name the rule is reported under.
    pub fn as_str(self) -> (r: &'static str)
        ensures
            r@ == rule_name(self),
    {
        match self {
            AuditRule::EvalUsage => "eval-usage",
            AuditRule::ChildProcessExec => "child-process-exec",
            AuditRule::ChildProcessSpawn => "child-process-spawn",
        }
    }
}

/// One match of a rule: the rule, the file (the text of its path from the
/// project root, starting with `node_modules`) and the line, counted from 1.
#[derive(Clone, Debug, Eq, PartialEq)]
pub struct AuditFinding {
    pub rule: AuditRule,
    pub relative_path: String,
    pub line: usize,
}

/// What an `AuditFinding` stands for.
pub struct FindingView {
    pub rule: AuditRule,
    pub path: Seq<char>,
    pub line: nat,
}

impl View for AuditFinding {
    type V = FindingView;

    open spec fn view(&self) -> FindingView {
        FindingView { rule: self.rule, path: self.relative_path@, line: self.line as nat }
    }
}

/// What the findings `v` stand for.
pub open spec fn findings_view(v: Seq<AuditFinding>) -> Seq<FindingView> {
    v.map_values(|f: AuditFinding| f@)
}

/// The line a finding is reported as: `<rule> <path>:<line>`.
pub open spec fn rendered(f: FindingView) -> Seq<char> {
    rule_name(f.rule) + seq![' '] + f.path + seq![':'] + text::decimal(f.line)
}

impl AuditFinding {
    /// The finding as it is reported: `<rule> <path>:<line>`.
    pub fn render(&self) -> (r: String)
        ensures
            r@ == rendered(self@),
    {
        let mut out = String::new();
        text::push_str(&mut out, self.rule.as_str());
        proof { reveal_strlit(" "); reveal_strlit(":"); }
        text::push_str(&mut out, " ");
        text::push_str(&mut out, self.relative_path.as_str());
        text::push_str(&mut out, ":");
        text::push_decimal(&mut out, self.line);
        assert(out@ =~= rendered(self@));
        out
    }
}

/// The outcome of an audit: its findings and the number of files it read.
#[derive(Debug, Eq, PartialEq)]
pub struct AuditReport {
    pub findings: Vec<AuditFinding>,
    pub scanned_files: usize,
}

impl AuditReport {
    /// A report with no findings and no file scanned.
    pub fn new() -> (r: Self)
        ensures
            r.findings@.len() == 0,
            r.scanned_files == 0,
    {
        AuditReport { findings: Vec::new(), scanned_files: 0 }
    }
}

impl Default for AuditReport {
    fn default() -> (r: Self)
        ensures
            r.findings@.len() == 0,
            r.scanned_files == 0,
    {
        AuditReport::new()
    }
}


/// The findings for the line `line`, numbered `n`, of the file at `p`:
/// `eval(` on the line, and, in a file that references `child_process`,
/// `exec(` and `spawn(`, in that order.
pub open spec fn line_findings(p: Seq<char>, child_process: bool, line: Seq<char>, n: nat) -> Seq<FindingView> {
    (if text::contains(line, "eval("@) {
        seq![FindingView { rule: AuditRule::EvalUsage, path: p, line: n }]
    } else {
        seq![]
    }) + (if child_process && text::contains(line, "exec("@) {
        seq![FindingView { rule: AuditRule::ChildProcessExec, path: p, line: n }]
    } else {
        seq![]
    }) + (if child_process && text::contains(line, "spawn("@) {
        seq![FindingView { rule: AuditRule::ChildProcessSpawn, path: p, line: n }]
    } else {
        seq![]
    })
}

/// The findings for the lines `ls`, numbered from 1, in order.
pub open spec fn findings_of_lines(p: Seq<char>, child_process: bool, ls: Seq<Seq<char>>) -> Seq<FindingView>
    decreases ls.len(),
{
    if ls.len() == 0 {
        seq![]
    } else {
        findings_of_lines(p, child_process, ls.drop_last()) + line_findings(
            p,
            child_process,
            ls.last(),
            ls.len(),
        )
    }
}

/// Whether a file's text references the `child_process` module.
pub open spec fn references_child_process(contents: Seq<char>) -> bool {
    text::contains(contents, "child_process"@) || text::contains(contents, "node:child_process"@)
}

/// The findings for a file at `p` with the text `contents`.
pub open spec fn file_findings(p: Seq<char>, contents: Seq<char>) -> Seq<FindingView> {
    findings_of_lines(p, references_child_process(contents), text::lines(contents))
}

/// The path a finding in the file `file` reports: its path below the
/// `node_modules` directory `root` (`Path::strip_prefix`), joined to
/// `node_modules` (`Path::join`); `None` where `file` is not below `root`.
pub open spec fn relative_path_text(root: Seq<char>, file: Seq<char>) -> Option<Seq<char>> {
    match path::stripped_text(file, root) {
        Some(rest) => Some(path::joined_text("node_modules"@, rest)),
        None => None,
    }
}

fn push_finding(out: &mut Vec<AuditFinding>, f: AuditFinding)
    ensures
        findings_view(final(out)@) == findings_view(old(out)@).push(f@),
{
    let ghost before = out@;
    let ghost fv = f@;
    out.push(f);
    assert forall|k: int| 0 <= k < out@.len() implies #[trigger] findings_view(out@)[k] == findings_view(before).push(fv)[k] by {
        if k < before.len() {
            assert(out@[k] == before[k]);
        }
    }
    assert(findings_view(out@) =~= findings_view(before).push(fv));
}

/// The findings for the file at `path`, below the `node_modules`
/// directory `node_modules_root`, whose text is `contents`: for each line,
/// in order, an `eval-usage` finding where it holds `eval(`, and, where the
/// file references `child_process` anywhere, a `child-process-exec`
/// finding where it holds `exec(` and a `child-process-spawn` finding
/// where it holds `spawn(`.
pub fn scan_file(node_modules_root: &str, path: &str, contents: &str) -> (r: Vec<AuditFinding>)
    requires
        relative_path_text(node_modules_root@, path@) is Some,
    ensures
        findings_view(r@) == file_findings(relative_path_text(node_modules_root@, path@)->0, contents@),
{
    let rest = match path::strip_prefix_text(path, node_modules_root) {
        Some(rest) => rest,
        None => {
            assert(false);
            return Vec::new();
        },
    };
    let relative = path::join_text("node_modules", rest.as_str());
    let ghost rp = relative@;
    let chars = text::str_chars(contents);
    let child_process = text::contains_chars(&chars, &text::str_chars("child_process"))
        || text::contains_chars(&chars, &text::str_chars("node:child_process"));
    let eval_pattern = text::str_chars("eval(");
    let exec_pattern = text::str_chars("exec(");
    let spawn_pattern = text::str_chars("spawn(");
    let ls = text::split_lines(&chars);
    let ghost lv = text::lines(contents@);
    let mut findings: Vec<AuditFinding> = Vec::new();
    let mut k: usize = 0;
    while k < ls.len()
        invariant
            k <= ls.len(),
            text::views_of(ls@) == lv,
            rp == relative@,
            child_process == references_child_process(contents@),
            eval_pattern@ == "eval("@,
            exec_pattern@ == "exec("@,
            spawn_pattern@ == "spawn("@,
            findings_view(findings@) == findings_of_lines(rp, child_process, lv.take(k as int)),
        decreases ls.len() - k,
    {
        let line = &ls[k];
        assert(line@ == lv[k as int]);
        let n = k + 1;
        let ghost before = findings_view(findings@);
        if text::contains_chars(line, &eval_pattern) {
            push_finding(&mut findings, AuditFinding {
                rule: AuditRule::EvalUsage,
                relative_path: relative.clone(),
                line: n,
            });
        }
        if child_process && text::contains_chars(line, &exec_pattern) {
            push_finding(&mut findings, AuditFinding {
                rule: AuditRule::ChildProcessExec,
                relative_path: relative.clone(),
                line: n,
            });
        }
        if child_process && text::contains_chars(line, &spawn_pattern) {
            push_finding(&mut findings, AuditFinding {
                rule: AuditRule::ChildProcessSpawn,
                relative_path: relative.clone(),
                line: n,
            });
        }
        assert(findings_view(findings@) =~= before + line_findings(rp, child_process, lv[k as int], n as nat));
        assert(lv.take(k + 1).drop_last() =~= lv.take(k as int));
        k = k + 1;
    }
    assert(lv.take(ls.len() as int) =~= lv);
    findings
}


/// The text a rule looks for on a line.
pub open spec fn rule_pattern(rule: AuditRule) -> Seq<char> {
    match rule {
        AuditRule::EvalUsage => "eval("@,
        AuditRule::ChildProcessExec => "exec("@,
        AuditRule::ChildProcessSpawn => "spawn("@,
    }
}

/// Whether the finding `f` reports a line of `ls` for the file at `p`: it
/// names a line that holds the rule's pattern, and its rule applies there.
pub open spec fn reports_line(f: FindingView, p: Seq<char>, child_process: bool, ls: Seq<Seq<char>>) -> bool {
    &&& f.path == p
    &&& 1 <= f.line <= ls.len()
    &&& text::contains(ls[f.line - 1], rule_pattern(f.rule))
    &&& (f.rule != AuditRule::EvalUsage ==> child_process)
}

proof fn lemma_findings_of_lines_sound(p: Seq<char>, child_process: bool, ls: Seq<Seq<char>>)
    ensures
        forall|k: int|
            0 <= k < findings_of_lines(p, child_process, ls).len() ==> reports_line(
                #[trigger] findings_of_lines(p, child_process, ls)[k],
                p,
                child_process,
                ls,
            ),
    decreases ls.len(),
{
    if ls.len() > 0 {
        let dl = ls.drop_last();
        lemma_findings_of_lines_sound(p, child_process, dl);
        let head = findings_of_lines(p, child_process, dl);
        let tail = line_findings(p, child_process, ls.last(), ls.len());
        let all = findings_of_lines(p, child_process, ls);
        assert(all == head + tail);
        assert forall|k: int| 0 <= k < all.len() implies reports_line(#[trigger] all[k], p, child_process, ls) by {
            if k < head.len() {
                assert(all[k] == head[k]);
                assert(reports_line(head[k], p, child_process, dl));
                assert(ls[head[k].line - 1] == dl[head[k].line - 1]);
            } else {
                assert(all[k] == tail[k - head.len()]);
                assert(ls[ls.len() - 1] == ls.last());
            }
        }
    }
}

proof fn lemma_findings_of_lines_complete(p: Seq<char>, child_process: bool, ls: Seq<Seq<char>>, n: int, rule: AuditRule)
    requires
        1 <= n <= ls.len(),
        text::contains(ls[n - 1], rule_pattern(rule)),
        rule != AuditRule::EvalUsage ==> child_process,
    ensures
        findings_of_lines(p, child_process, ls).contains(FindingView { rule, path: p, line: n as nat }),
    decreases ls.len(),
{
    let dl = ls.drop_last();
    let head = findings_of_lines(p, child_process, dl);
    let tail = line_findings(p, child_process, ls.last(), ls.len());
    let all = findings_of_lines(p, child_process, ls);
    assert(all == head + tail);
    let f = FindingView { rule, path: p, line: n as nat };
    if n < ls.len() {
        assert(dl[n - 1] == ls[n - 1]);
        lemma_findings_of_lines_complete(p, child_process, dl, n, rule);
        let k = choose|k: int| 0 <= k < head.len() && head[k] == f;
        assert(all[k] == f);
    } else {
        assert(ls.last() == ls[n - 1]);
        let line = ls.last();
        let num = ls.len();
        let e = if text::contains(line, "eval("@) {
            seq![FindingView { rule: AuditRule::EvalUsage, path: p, line: num }]
        } else {
            seq![]
        };
        let x = if child_process && text::contains(line, "exec("@) {
            seq![FindingView { rule: AuditRule::ChildProcessExec, path: p, line: num }]
        } else {
            seq![]
        };
        let sp = if child_process && text::contains(line, "spawn("@) {
            seq![FindingView { rule: AuditRule::ChildProcessSpawn, path: p, line: num }]
        } else {
            seq![]
        };
        assert(tail == e + x + sp);
        let k: int = match rule {
            AuditRule::EvalUsage => 0,
            AuditRule::ChildProcessExec => e.len() as int,
            AuditRule::ChildProcessSpawn => (e.len() + x.len()) as int,
        };
        assert(tail[k] == f);
        assert(all[head.len() + k] == f);
    }
}

/// A file's findings are exactly its lines that hold a pattern: each
/// finding names a line of the file that holds its rule's pattern (`exec(`
/// and `spawn(` only where the file references `child_process`), and each
/// such line is reported.
pub proof fn lemma_file_findings_exact(p: Seq<char>, contents: Seq<char>)
    ensures
        forall|k: int|
            0 <= k < file_findings(p, contents).len() ==> reports_line(
                #[trigger] file_findings(p, contents)[k],
                p,
                references_child_process(contents),
                text::lines(contents),
            ),
        forall|f: FindingView|
            reports_line(f, p, references_child_process(contents), text::lines(contents))
                ==> #[trigger] file_findings(p, contents).contains(f),
{
    let cp = references_child_process(contents);
    let ls = text::lines(contents);
    lemma_findings_of_lines_sound(p, cp, ls);
    assert forall|f: FindingView| reports_line(f, p, cp, ls) implies #[trigger] file_findings(p, contents).contains(f) by {
        lemma_findings_of_lines_complete(p, cp, ls, f.line as int, f.rule);
    }
}

/// Whether a file references `child_process` is decided from its whole
/// text: where the text holds `child_process` anywhere, every line that
/// holds `exec(` or `spawn(` is reported under its rule, and where it holds
/// neither `child_process` nor `node:child_process`, only `eval(` is
/// reported. `eval(` is reported on every line that holds it.
pub proof fn lemma_child_process_reference_is_whole_text(p: Seq<char>, contents: Seq<char>)
    ensures
        forall|n: int|
            1 <= n <= text::lines(contents).len() && text::contains(#[trigger] text::lines(contents)[n - 1], "eval("@)
                ==> file_findings(p, contents).contains(
                FindingView { rule: AuditRule::EvalUsage, path: p, line: n as nat },
            ),
        forall|n: int|
            1 <= n <= text::lines(contents).len() && text::contains(contents, "child_process"@) && text::contains(
                #[trigger] text::lines(contents)[n - 1],
                "exec("@,
            ) ==> file_findings(p, contents).contains(
                FindingView { rule: AuditRule::ChildProcessExec, path: p, line: n as nat },
            ),
        forall|n: int|
            1 <= n <= text::lines(contents).len() && text::contains(contents, "child_process"@) && text::contains(
                #[trigger] text::lines(contents)[n - 1],
                "spawn("@,
            ) ==> file_findings(p, contents).contains(
                FindingView { rule: AuditRule::ChildProcessSpawn, path: p, line: n as nat },
            ),
        !text::contains(contents, "child_process"@) && !text::contains(contents, "node:child_process"@) ==> forall|
            k: int,
        |
            0 <= k < file_findings(p, contents).len() ==> (#[trigger] file_findings(p, contents)[k]).rule
                == AuditRule::EvalUsage,
{
    lemma_file_findings_exact(p, contents);
    let cp = references_child_process(contents);
    let ls = text::lines(contents);
    assert forall|n: int|
        1 <= n <= ls.len() && text::contains(#[trigger] ls[n - 1], "eval("@) implies file_findings(p, contents).contains(
        FindingView { rule: AuditRule::EvalUsage, path: p, line: n as nat },
    ) by {
        assert(reports_line(FindingView { rule: AuditRule::EvalUsage, path: p, line: n as nat }, p, cp, ls));
    }
    assert forall|n: int|
        1 <= n <= ls.len() && text::contains(contents, "child_process"@) && text::contains(#[trigger] ls[n - 1], "exec("@)
            implies file_findings(p, contents).contains(
        FindingView { rule: AuditRule::ChildProcessExec, path: p, line: n as nat },
    ) by {
        assert(reports_line(FindingView { rule: AuditRule::ChildProcessExec, path: p, line: n as nat }, p, cp, ls));
    }
    assert forall|n: int|
        1 <= n <= ls.len() && text::contains(contents, "child_process"@) && text::contains(#[trigger] ls[n - 1], "spawn("@)
            implies file_findings(p, contents).contains(
        FindingView { rule: AuditRule::ChildProcessSpawn, path: p, line: n as nat },
    ) by {
        assert(reports_line(FindingView { rule: AuditRule::ChildProcessSpawn, path: p, line: n as nat }, p, cp, ls));
    }
    if !text::contains(contents, "child_process"@) && !text::contains(contents, "node:child_process"@) {
        assert forall|k: int| 0 <= k < file_findings(p, contents).len() implies (#[trigger] file_findings(
            p,
            contents,
        )[k]).rule == AuditRule::EvalUsage by {
            assert(reports_line(file_findings(p, contents)[k], p, cp, ls));
        }
    }
}

/// A file's findings come in report order: by line, then rule.
pub proof fn lemma_file_findings_sorted(p: Seq<char>, contents: Seq<char>)
    ensures
        sorted_findings(file_findings(p, contents)),
{
    lemma_findings_of_lines_sorted(p, references_child_process(contents), text::lines(contents));
}

proof fn lemma_findings_of_lines_sorted(p: Seq<char>, child_process: bool, ls: Seq<Seq<char>>)
    ensures
        sorted_findings(findings_of_lines(p, child_process, ls)),
    decreases ls.len(),
{
    path::lemma_parts_lt_order(path::path_parts(p), path::path_parts(p), path::path_parts(p));
    if ls.len() > 0 {
        let dl = ls.drop_last();
        lemma_findings_of_lines_sorted(p, child_process, dl);
        lemma_findings_of_lines_sound(p, child_process, dl);
        let head = findings_of_lines(p, child_process, dl);
        let tail = line_findings(p, child_process, ls.last(), ls.len());
        let all = findings_of_lines(p, child_process, ls);
        assert(all == head + tail);
        assert forall|i: int, j: int| 0 <= i < j < all.len() implies !finding_lt(#[trigger] all[j], #[trigger] all[i]) by {
            if j < head.len() {
                assert(all[i] == head[i] && all[j] == head[j]);
            } else if i < head.len() {
                assert(all[i] == head[i]);
                assert(reports_line(head[i], p, child_process, dl));
                assert(all[j] == tail[j - head.len()]);
            } else {
                assert(all[i] == tail[i - head.len()]);
                assert(all[j] == tail[j - head.len()]);
            }
        }
    }
}

impl AuditReport {
    /// Counts one more scanned file, at `path` below `node_modules_root`,
    /// with the text `contents`, and adds its findings.
    pub fn record_file(&mut self, node_modules_root: &str, path: &str, contents: &str)
        requires
            old(self).scanned_files < usize::MAX,
            relative_path_text(node_modules_root@, path@) is Some,
        ensures
            final(self).scanned_files == old(self).scanned_files + 1,
            findings_view(final(self).findings@) == findings_view(old(self).findings@) + file_findings(
                relative_path_text(node_modules_root@, path@)->0,
                contents@,
            ),
    {
        self.scanned_files = self.scanned_files + 1;
        let found = scan_file(node_modules_root, path, contents);
        let mut i: usize = 0;
        let ghost start = findings_view(self.findings@);
        while i < found.len()
            invariant
                i <= found.len(),
                self.scanned_files == old(self).scanned_files + 1,
                findings_view(self.findings@) == start + findings_view(found@).take(i as int),
            decreases found.len() - i,
        {
            let f = AuditFinding {
                rule: found[i].rule,
                relative_path: found[i].relative_path.clone(),
                line: found[i].line,
            };
            assert(f@ == found@[i as int]@);
            push_finding(&mut self.findings, f);
            assert(findings_view(found@).take(i + 1) =~= findings_view(found@).take(i as int).push(findings_view(found@)[i as int]));
            i = i + 1;
        }
        assert(findings_view(found@).take(found.len() as int) =~= findings_view(found@));
    }
}

/// The kind of a directory entry, not following symbolic links.
#[derive(Clone, Copy, Debug, PartialEq, Eq, Structural)]
pub enum EntryKind {
    Symlink,
    Directory,
    File,
    Other,
}

/// What an audit does with a directory entry.
#[derive(Clone, Copy, Debug, PartialEq, Eq, Structural)]
pub enum EntryAction {
    /// Leave it alone.
    Skip,
    /// Audit the directory's entries.
    Descend,
    /// Scan the file, if it is not too large.
    Inspect,
}

/// Whether the path's final component is a name starting with `.`.
pub open spec fn hidden(ps: Seq<Part>) -> bool {
    path::file_name(ps) matches Some(n) && n.len() > 0 && n[0] == '.'
}

/// Whether the path's file name has the extension `js`, `cjs` or `mjs`.
pub open spec fn scannable(ps: Seq<Part>) -> bool {
    path::file_name(ps) matches Some(n) && (path::extension_of(n) matches Some(e) && (e == "js"@ || e == "cjs"@
        || e == "mjs"@))
}

/// What an audit does with an entry of the given kind at `ps`: symbolic
/// links and hidden directories are skipped, other directories are
/// descended into, and only JavaScript files are inspected.
pub open spec fn spec_entry_action(kind: EntryKind, ps: Seq<Part>) -> EntryAction {
    match kind {
        EntryKind::Symlink => EntryAction::Skip,
        EntryKind::Directory => if hidden(ps) {
            EntryAction::Skip
        } else {
            EntryAction::Descend
        },
        EntryKind::File => if scannable(ps) {
            EntryAction::Inspect
        } else {
            EntryAction::Skip
        },
        EntryKind::Other => EntryAction::Skip,
    }
}

/// What an audit does with each kind of entry: a symbolic link or an
/// entry of another kind is never followed; a directory is descended into
/// exactly when its name does not start with `.`, whatever else its name
/// holds (so `bn.js/` is audited); a file is inspected exactly when its name
/// has the extension `js`, `cjs` or `mjs`, and is otherwise skipped.
pub proof fn lemma_entry_actions(ps: Seq<Part>)
    ensures
        spec_entry_action(EntryKind::Symlink, ps) == EntryAction::Skip,
        spec_entry_action(EntryKind::Other, ps) == EntryAction::Skip,
        spec_entry_action(EntryKind::Directory, ps) != EntryAction::Inspect,
        (spec_entry_action(EntryKind::Directory, ps) == EntryAction::Descend) <==> !(path::file_name(ps) matches Some(
            n,
        ) && n.len() > 0 && n[0] == '.'),
        spec_entry_action(EntryKind::File, ps) != EntryAction::Descend,
        (spec_entry_action(EntryKind::File, ps) == EntryAction::Inspect) <==> (path::file_name(ps) matches Some(n)
            && (path::extension_of(n) matches Some(e) && (e == "js"@ || e == "cjs"@ || e == "mjs"@))),
{
}

/// Whether the path names a file with a JavaScript extension (`js`, `cjs`
/// or `mjs`).
pub fn is_scannable_extension(path: &str) -> (r: bool)
    ensures
        r == scannable(path::path_parts(path@)),
{
    let ps = path::components(path);
    match path::final_name(&ps) {
        None => false,
        Some(name) => match path::extension(&name) {
            None => false,
            Some(e) => {
                let js = text::str_chars("js");
                let cjs = text::str_chars("cjs");
                let mjs = text::str_chars("mjs");
                text::chars_equal(&e, &js) || text::chars_equal(&e, &cjs) || text::chars_equal(&e, &mjs)
            },
        },
    }
}

/// Whether the path's final component is a name starting with `.`.
pub fn is_hidden(path: &str) -> (r: bool)
    ensures
        r == hidden(path::path_parts(path@)),
{
    let ps = path::components(path);
    match path::final_name(&ps) {
        None => false,
        Some(name) => name.len() > 0 && name[0] == '.',
    }
}

/// What an audit does with an entry of kind `kind` at `path`.
pub fn entry_action(kind: EntryKind, path: &str) -> (r: EntryAction)
    ensures
        r == spec_entry_action(kind, path::path_parts(path@)),
{
    match kind {
        EntryKind::Symlink => EntryAction::Skip,
        EntryKind::Directory => if is_hidden(path) {
            EntryAction::Skip
        } else {
            EntryAction::Descend
        },
        EntryKind::File => if is_scannable_extension(path) {
            EntryAction::Inspect
        } else {
            EntryAction::Skip
        },
        EntryKind::Other => EntryAction::Skip,
    }
}

/// Whether a file of `len` bytes is small enough to scan.
pub fn within_size_limit(len: u64) -> (r: bool)
    ensures
        r == (len <= MAX_FILE_SIZE_BYTES),
{
    len <= MAX_FILE_SIZE_BYTES
}

/// The order of a report: by path (as paths compare), then line, then rule.
pub open spec fn finding_lt(a: FindingView, b: FindingView) -> bool {
    ||| path::parts_lt(path::path_parts(a.path), path::path_parts(b.path))
    ||| path::path_parts(a.path) == path::path_parts(b.path) && a.line < b.line
    ||| path::path_parts(a.path) == path::path_parts(b.path) && a.line == b.line && rule_rank(a.rule) < rule_rank(
        b.rule,
    )
}

/// Whether `v` is in report order.
pub open spec fn sorted_findings(v: Seq<FindingView>) -> bool {
    forall|i: int, j: int| 0 <= i < j < v.len() ==> !finding_lt(#[trigger] v[j], #[trigger] v[i])
}

/// The order of findings is a strict order.
pub proof fn lemma_finding_lt_order(a: FindingView, b: FindingView, c: FindingView)
    ensures
        !finding_lt(a, a),
        finding_lt(a, b) && finding_lt(b, c) ==> finding_lt(a, c),
{
    path::lemma_parts_lt_order(path::path_parts(a.path), path::path_parts(b.path), path::path_parts(c.path));
    path::lemma_parts_lt_order(path::path_parts(a.path), path::path_parts(a.path), path::path_parts(a.path));
    path::lemma_parts_lt_order(path::path_parts(b.path), path::path_parts(b.path), path::path_parts(b.path));
}

/// Whether two findings name the same path (by components), line and rule.
pub open spec fn same_key(a: FindingView, b: FindingView) -> bool {
    &&& path::path_parts(a.path) == path::path_parts(b.path)
    &&& a.line == b.line
    &&& a.rule == b.rule
}

/// Of two findings that differ in path, line or rule, one comes first.
pub proof fn lemma_finding_lt_total(a: FindingView, b: FindingView)
    ensures
        !finding_lt(a, b) && !finding_lt(b, a) ==> same_key(a, b),
{
    path::lemma_parts_lt_total(path::path_parts(a.path), path::path_parts(b.path));
}

/// Two arrangements in report order of the same findings are the same,
/// where no two different findings share their path, line and rule: the
/// order of a report does not depend on the order it was gathered in.
pub proof fn lemma_sorted_findings_unique(a: Seq<FindingView>, b: Seq<FindingView>)
    requires
        sorted_findings(a),
        sorted_findings(b),
        a.to_multiset() == b.to_multiset(),
        forall|i: int, j: int|
            0 <= i < a.len() && 0 <= j < a.len() && same_key(#[trigger] a[i], #[trigger] a[j]) ==> a[i] == a[j],
    ensures
        a == b,
    decreases a.len(),
{
    broadcast use vstd::multiset::group_multiset_axioms;
    vstd::seq_lib::to_multiset_len(a);
    vstd::seq_lib::to_multiset_len(b);
    if a.len() == 0 {
        assert(a =~= b);
    } else {
        let x = a[0];
        let y = b[0];
        vstd::seq_lib::to_multiset_contains(a, x);
        vstd::seq_lib::to_multiset_contains(b, x);
        vstd::seq_lib::to_multiset_contains(a, y);
        vstd::seq_lib::to_multiset_contains(b, y);
        assert(b.contains(y)) by {
            assert(b[0] == y);
        }
        assert(a.contains(x)) by {
            assert(a[0] == x);
        }
        assert(a.contains(y));
        assert(b.contains(x));
        let j = choose|j: int| 0 <= j < a.len() && a[j] == y;
        let l = choose|l: int| 0 <= l < b.len() && b[l] == x;
        if j > 0 {
            assert(!finding_lt(a[j], a[0]));
        }
        if l > 0 {
            assert(!finding_lt(b[l], b[0]));
        }
        lemma_finding_lt_total(x, y);
        lemma_finding_lt_order(x, x, x);
        assert(same_key(a[0], a[j]));
        assert(x == y);
        let a2 = a.drop_first();
        let b2 = b.drop_first();
        assert(a.remove(0) =~= a2);
        assert(b.remove(0) =~= b2);
        vstd::seq_lib::to_multiset_remove(a, 0);
        vstd::seq_lib::to_multiset_remove(b, 0);
        assert(a2.to_multiset() == b2.to_multiset());
        assert forall|i: int, k: int| 0 <= i < k < a2.len() implies !finding_lt(#[trigger] a2[k], #[trigger] a2[i]) by {
            assert(a2[k] == a[k + 1] && a2[i] == a[i + 1]);
        }
        assert forall|i: int, k: int| 0 <= i < k < b2.len() implies !finding_lt(#[trigger] b2[k], #[trigger] b2[i]) by {
            assert(b2[k] == b[k + 1] && b2[i] == b[i + 1]);
        }
        assert forall|i: int, k: int|
            0 <= i < a2.len() && 0 <= k < a2.len() && same_key(#[trigger] a2[i], #[trigger] a2[k]) implies a2[i] == a2[k] by {
            assert(a2[i] == a[i + 1] && a2[k] == a[k + 1]);
        }
        lemma_sorted_findings_unique(a2, b2);
        assert forall|i: int| 0 <= i < a.len() implies a[i] == b[i] by {
            if i > 0 {
                assert(a[i] == a2[i - 1] && b[i] == b2[i - 1]);
            }
        }
        assert(a =~= b);
    }
}

fn rule_rank_of(rule: AuditRule) -> (r: u8)
    ensures
        r == rule_rank(rule),
{
    match rule {
        AuditRule::EvalUsage => 0,
        AuditRule::ChildProcessExec => 1,
        AuditRule::ChildProcessSpawn => 2,
    }
}

/// Whether `a` comes before `b` in report order.
pub fn finding_less(a: &AuditFinding, b: &AuditFinding) -> (r: bool)
    ensures
        r == finding_lt(a@, b@),
{
    let pa = path::components(a.relative_path.as_str());
    let pb = path::components(b.relative_path.as_str());
    if path::components_less(&pa, &pb) {
        return true;
    }
    if !path::same_components(&pa, &pb) {
        return false;
    }
    a.line < b.line || (a.line == b.line && rule_rank_of(a.rule) < rule_rank_of(b.rule))
}

/// The findings in report order (a stable sort by path, line and rule).
pub fn sort_findings(findings: Vec<AuditFinding>) -> (r: Vec<AuditFinding>)
    ensures
        sorted_findings(findings_view(r@)),
        r@.to_multiset() == findings@.to_multiset(),
        findings_view(r@).to_multiset() == findings_view(findings@).to_multiset(),
{
    broadcast use vstd::seq_lib::group_to_multiset_ensures, vstd::multiset::group_multiset_axioms;
    let ghost all = findings@;
    let mut input = findings;
    let mut out: Vec<AuditFinding> = Vec::new();
    assert(out@.to_multiset() =~= vstd::multiset::Multiset::empty());
    assert(findings_view(out@).to_multiset() =~= vstd::multiset::Multiset::empty());
    while input.len() > 0
        invariant
            out@.to_multiset().add(input@.to_multiset()) == all.to_multiset(),
            findings_view(out@).to_multiset().add(findings_view(input@).to_multiset())
                == findings_view(all).to_multiset(),
            sorted_findings(findings_view(out@)),
        decreases input.len(),
    {
        let ghost prev_in = input@;
        let x = match input.pop() {
            Some(x) => x,
            None => {
                assert(false);
                return out;
            },
        };
        assert(prev_in =~= input@.push(x));
        let ghost ov = findings_view(out@);
        let mut p: usize = 0;
        while p < out.len() && !finding_less(&x, &out[p])
            invariant
                p <= out.len(),
                ov == findings_view(out@),
                forall|k: int| 0 <= k < p ==> !finding_lt(x@, #[trigger] ov[k]),
            decreases out.len() - p,
        {
            p = p + 1;
        }
        let ghost prev_out = out@;
        out.insert(p, x);
        proof {
            vstd::seq_lib::to_multiset_insert(prev_out, p as int, x);
            assert(out@.to_multiset() =~= prev_out.to_multiset().insert(x));
            vstd::seq_lib::to_multiset_build(input@, x);
            assert(prev_in.to_multiset() =~= input@.to_multiset().insert(x));
            assert(out@.to_multiset().add(input@.to_multiset()) =~= prev_out.to_multiset().add(prev_in.to_multiset()));
            let nv = findings_view(out@);
            assert(nv =~= ov.insert(p as int, x@));
            vstd::seq_lib::to_multiset_insert(ov, p as int, x@);
            assert(findings_view(prev_in) =~= findings_view(input@).push(x@));
            vstd::seq_lib::to_multiset_build(findings_view(input@), x@);
            assert(nv.to_multiset().add(findings_view(input@).to_multiset()) =~= ov.to_multiset().add(
                findings_view(prev_in).to_multiset(),
            ));
            assert forall|k: int| 0 <= k < nv.len() implies #[trigger] nv[k] == (if k < p {
                ov[k]
            } else if k == p {
                x@
            } else {
                ov[k - 1]
            }) by {
                if k < p {
                    assert(out@[k] == prev_out[k]);
                } else if k > p {
                    assert(out@[k] == prev_out[k - 1]);
                }
            }
            assert forall|i: int, j: int| 0 <= i < j < nv.len() implies !finding_lt(#[trigger] nv[j], #[trigger] nv[i]) by {
                if j < p {
                    assert(!finding_lt(ov[j], ov[i]));
                } else if j == p {
                    assert(!finding_lt(x@, ov[i]));
                } else if i == p {
                    let y = ov[j - 1];
                    lemma_finding_lt_order(y, x@, ov[p as int]);
                    lemma_finding_lt_order(y, y, y);
                    if j - 1 > p {
                        assert(!finding_lt(ov[j - 1], ov[p as int]));
                    }
                } else if i < p {
                    assert(!finding_lt(ov[j - 1], ov[i]));
                } else {
                    assert(!finding_lt(ov[j - 1], ov[i - 1]));
                }
            }
        }
    }
    assert(input@.to_multiset() =~= vstd::multiset::Multiset::empty());
    assert(findings_view(input@).to_multiset() =~= vstd::multiset::Multiset::empty());
    out
}

} // verus!
