//! The decisions of the `shield`, `audit` and `install` commands: what they
//! report and when they fail.

use vstd::prelude::*;
use crate::config_files::{FileChange, ShieldOutcome};
use crate::error::ScruttError;
use crate::pkg_json::{self, PackageJson};
use crate::text;

verus! {

broadcast use vstd::string::group_string_axioms;

/// The program `install` runs.
pub const NPM_PROGRAM: &'static str = "npm";

/// The files that `shield` changed as `target` says, in a stable order,
/// each as the summary names it.
pub open spec fn group_files(outcome: ShieldOutcome, target: FileChange) -> Seq<Seq<char>> {
    (if outcome.scrutt_toml == target {
        seq!["scrutt.toml"@]
    } else {
        seq![]
    }) + (if outcome.npmrc == target {
        seq![
            if target == FileChange::Updated {
                ".npmrc (ignore-scripts=true)"@
            } else {
                ".npmrc"@
            },
        ]
    } else {
        seq![]
    })
}

/// Each managed file is listed in the group of its own change, whatever
/// happened to the other: `scrutt.toml` is listed exactly when its change
/// is `target`, and a name starting with `.npmrc` is listed, last,
/// exactly when the change of `.npmrc` is `target`; nothing else is listed.
pub proof fn lemma_group_lists_each_file(outcome: ShieldOutcome, target: FileChange)
    ensures
        group_files(outcome, target).len() == (if outcome.scrutt_toml == target {
            1int
        } else {
            0int
        }) + (if outcome.npmrc == target {
            1int
        } else {
            0int
        }),
        group_files(outcome, target).contains("scrutt.toml"@) <==> outcome.scrutt_toml == target,
        outcome.scrutt_toml == target ==> group_files(outcome, target)[0] == "scrutt.toml"@,
        outcome.npmrc == target ==> group_files(outcome, target).last().take(6) == ".npmrc"@,
        outcome.npmrc != target ==> forall|i: int|
            0 <= i < group_files(outcome, target).len() ==> #[trigger] group_files(outcome, target)[i]
                == "scrutt.toml"@,
{
    reveal_strlit("scrutt.toml");
    reveal_strlit(".npmrc");
    reveal_strlit(".npmrc (ignore-scripts=true)");
    let g = group_files(outcome, target);
    if outcome.npmrc == target {
        assert(".npmrc (ignore-scripts=true)"@.take(6) =~= ".npmrc"@);
        assert(".npmrc"@.take(6) =~= ".npmrc"@);
        assert(g.last() != "scrutt.toml"@);
    }
    if outcome.scrutt_toml == target {
        assert(g[0] == "scrutt.toml"@);
    }
}

/// The files that `shield` changed as `target` says, separated by `, `;
/// `None` if there are none.
pub open spec fn spec_render_group(outcome: ShieldOutcome, target: FileChange) -> Option<Seq<char>> {
    if group_files(outcome, target).len() == 0 {
        None
    } else {
        Some(text::join_with(group_files(outcome, target), ", "@))
    }
}

/// The part of the summary for one kind of change, if any file had it.
pub open spec fn summary_part(outcome: ShieldOutcome, target: FileChange, label: Seq<char>) -> Seq<Seq<char>> {
    match spec_render_group(outcome, target) {
        Some(g) => seq![label + g],
        None => seq![],
    }
}

/// The summary `shield` prints: created, updated and unchanged files, in
/// that order, each kind that occurs as `<Kind>: <files>`, separated by `; `.
pub open spec fn spec_render_summary(outcome: ShieldOutcome) -> Seq<char> {
    text::join_with(
        summary_part(outcome, FileChange::Created, "Created: "@) + summary_part(
            outcome,
            FileChange::Updated,
            "Updated: "@,
        ) + summary_part(outcome, FileChange::Unchanged, "Unchanged: "@),
        "; "@,
    )
}

/// The files that `shield` changed as `target` says, separated by `, `.
pub fn render_group(outcome: ShieldOutcome, target: FileChange) -> (r: Option<String>)
    ensures
        match r {
            Some(g) => spec_render_group(outcome, target) == Some(g@),
            None => spec_render_group(outcome, target) is None,
        },
{
    let mut files: Vec<String> = Vec::new();
    if outcome.scrutt_toml == target {
        files.push("scrutt.toml".to_owned());
    }
    if outcome.npmrc == target {
        let npmrc = if target == FileChange::Updated {
            ".npmrc (ignore-scripts=true)"
        } else {
            ".npmrc"
        };
        files.push(npmrc.to_owned());
    }
    assert(files@.map_values(|p: String| p@) =~= group_files(outcome, target));
    if files.len() == 0 {
        None
    } else {
        Some(text::join_strings(&files, ", "))
    }
}

fn push_summary_part(parts: &mut Vec<String>, outcome: ShieldOutcome, target: FileChange, label: &str)
    ensures
        final(parts)@.map_values(|p: String| p@) == old(parts)@.map_values(|p: String| p@)
            + summary_part(outcome, target, label@),
{
    let ghost before = parts@;
    match render_group(outcome, target) {
        Some(g) => {
            let mut part = label.to_owned();
            text::push_str(&mut part, g.as_str());
            parts.push(part);
            assert(parts@.map_values(|p: String| p@) =~= before.map_values(|p: String| p@) + summary_part(
                outcome,
                target,
                label@,
            ));
        },
        None => {
            assert(parts@.map_values(|p: String| p@) =~= before.map_values(|p: String| p@) + summary_part(
                outcome,
                target,
                label@,
            ));
        },
    }
}

/// The summary `shield` prints of what it did.
pub fn render_summary(outcome: ShieldOutcome) -> (r: String)
    ensures
        r@ == spec_render_summary(outcome),
{
    let mut parts: Vec<String> = Vec::new();
    assert(parts@.map_values(|p: String| p@) =~= Seq::<Seq<char>>::empty());
    push_summary_part(&mut parts, outcome, FileChange::Created, "Created: ");
    push_summary_part(&mut parts, outcome, FileChange::Updated, "Updated: ");
    push_summary_part(&mut parts, outcome, FileChange::Unchanged, "Unchanged: ");
    assert(parts@.map_values(|p: String| p@) =~= summary_part(outcome, FileChange::Created, "Created: "@)
        + summary_part(outcome, FileChange::Updated, "Updated: "@) + summary_part(
        outcome,
        FileChange::Unchanged,
        "Unchanged: "@,
    ));
    text::join_strings(&parts, "; ")
}

/// The line `shield` reports the dependencies of a manifest with:
/// `Dependencies: <n>, DevDependencies: <m>`.
pub open spec fn spec_dependency_counts(manifest: PackageJson) -> Seq<char> {
    "Dependencies: "@ + text::decimal(pkg_json::table_len(manifest.dependencies)) + ", DevDependencies: "@
        + text::decimal(pkg_json::table_len(manifest.dev_dependencies))
}

/// The line reporting the dependencies of `manifest`.
pub fn render_dependency_counts(manifest: &PackageJson) -> (r: String)
    ensures
        r@ == spec_dependency_counts(*manifest),
{
    let mut out = "Dependencies: ".to_owned();
    text::push_decimal(&mut out, manifest.dependency_count());
    text::push_str(&mut out, ", DevDependencies: ");
    text::push_decimal(&mut out, manifest.dev_dependency_count());
    out
}

/// How `audit` ends given the number of findings it printed: it succeeds
/// only when there are none.
pub fn audit_result(findings: usize) -> (r: Result<(), ScruttError>)
    ensures
        findings == 0 ==> r is Ok,
        findings > 0 ==> (r matches Err(ScruttError::AuditFindings { count }) && count == findings),
{
    if findings == 0 {
        Ok(())
    } else {
        Err(ScruttError::AuditFindings { count: findings })
    }
}

/// The arguments `install` runs `npm` with: it installs without running
/// any package script.
pub fn npm_install_args() -> (r: Vec<&'static str>)
    ensures
        r@.len() == 2,
        r@[0]@ == "install"@,
        r@[1]@ == "--ignore-scripts"@,
{
    let mut args: Vec<&'static str> = Vec::new();
    args.push("install");
    args.push("--ignore-scripts");
    args
}

/// How `install` ends once `npm` has exited in `cwd`: it succeeds when
/// `npm` did, and otherwise fails with `npm`'s exit code (`None` when a
/// signal ended it).
pub fn install_result(cwd: &str, success: bool, code: Option<i32>) -> (r: Result<(), ScruttError>)
    ensures
        success ==> r is Ok,
        !success ==> (r matches Err(ScruttError::InstallFailed { program, cwd: c, code: k }) && program@
            == NPM_PROGRAM@ && c@ == cwd@ && k == code),
{
    if success {
        Ok(())
    } else {
        Err(ScruttError::InstallFailed { program: NPM_PROGRAM.to_owned(), cwd: cwd.to_owned(), code })
    }
}

/// The error for a failure to start `npm` in `cwd`: a missing program
/// where `not_found`, and otherwise a failure to start it.
pub fn spawn_error(cwd: &str, source: std::io::Error, not_found: bool) -> (r: ScruttError)
    ensures
        not_found ==> (r matches ScruttError::MissingBinary { program, source: s } && program@
            == NPM_PROGRAM@ && s == source),
        !not_found ==> (r matches ScruttError::InstallProcessSpawn { program, cwd: c, source: s }
            && program@ == NPM_PROGRAM@ && c@ == cwd@ && s == source),
{
    if not_found {
        ScruttError::MissingBinary { program: NPM_PROGRAM.to_owned(), source }
    } else {
        ScruttError::InstallProcessSpawn { program: NPM_PROGRAM.to_owned(), cwd: cwd.to_owned(), source }
    }
}

/// The error for a failure to start `npm` in `cwd`: a missing program when
/// the error's kind is `NotFound`, and otherwise a failure to start it.
pub fn map_spawn_error(cwd: &str, source: std::io::Error) -> (r: ScruttError)
    ensures
        crate::error::io_error_not_found(source) ==> (r matches ScruttError::MissingBinary {
            program,
            source: s,
        } && program@ == NPM_PROGRAM@ && s == source),
        !crate::error::io_error_not_found(source) ==> (r matches ScruttError::InstallProcessSpawn {
            program,
            cwd: c,
            source: s,
        } && program@ == NPM_PROGRAM@ && c@ == cwd@ && s == source),
{
    let not_found = crate::error::io_error_is_not_found(&source);
    spawn_error(cwd, source, not_found)
}

} // verus!
