use scrutt::audit::{
    entry_action, finding_less, is_hidden, is_scannable_extension, scan_file, sort_findings,
    within_size_limit, AuditFinding, AuditReport, AuditRule, EntryAction, EntryKind,
    MAX_FILE_SIZE_BYTES,
};

fn finding(rule: AuditRule, path: &str, line: usize) -> AuditFinding {
    AuditFinding {
        rule,
        relative_path: path.to_string(),
        line,
    }
}

#[test]
fn only_accepts_supported_javascript_extensions() {
    assert!(is_scannable_extension("index.js"));
    assert!(is_scannable_extension("index.cjs"));
    assert!(is_scannable_extension("index.mjs"));
    assert!(!is_scannable_extension("index.ts"));
}

#[test]
fn detects_eval_and_child_process_patterns() {
    let findings = scan_file(
        "node_modules",
        "node_modules/pkg/index.js",
        "import { exec } from \"node:child_process\";\nexec(cmd)\neval(data)\nspawn(x)\n",
    );

    assert_eq!(findings.len(), 3);
    assert_eq!(findings[0].rule, AuditRule::ChildProcessExec);
    assert_eq!(findings[0].line, 2);
    assert_eq!(findings[1].rule, AuditRule::EvalUsage);
    assert_eq!(findings[1].line, 3);
    assert_eq!(findings[2].rule, AuditRule::ChildProcessSpawn);
    assert_eq!(findings[2].line, 4);
}

#[test]
fn exec_without_child_process_reference_is_not_reported() {
    let findings = scan_file("/p/node_modules", "/p/node_modules/a/b.js", "exec(cmd)\nspawn(x)\n");
    assert!(findings.is_empty());
}

#[test]
fn one_line_can_hold_several_findings_in_rule_order() {
    let findings = scan_file(
        "/p/node_modules",
        "/p/node_modules/a/b.js",
        "require('child_process'); spawn(a); exec(b); eval(c)",
    );
    let rules: Vec<AuditRule> = findings.iter().map(|f| f.rule).collect();
    assert_eq!(
        rules,
        vec![AuditRule::EvalUsage, AuditRule::ChildProcessExec, AuditRule::ChildProcessSpawn]
    );
    assert!(findings.iter().all(|f| f.line == 1));
}

#[test]
fn findings_carry_the_path_below_node_modules() {
    let findings = scan_file("/tmp/x/node_modules", "/tmp/x/node_modules/sketchy/index.js", "a\n\neval(x)\n");
    assert_eq!(findings.len(), 1);
    assert_eq!(findings[0].render(), "eval-usage node_modules/sketchy/index.js:3");
}

#[test]
fn crlf_lines_are_counted_like_lf_lines() {
    let findings = scan_file("nm", "nm/p.js", "x\r\ny\r\neval(z)\r\n");
    assert_eq!(findings.len(), 1);
    assert_eq!(findings[0].line, 3);
}

#[test]
fn renders_rule_path_and_line() {
    let f = finding(AuditRule::ChildProcessExec, "node_modules/shell-pkg/lib/exec.js", 2);
    assert_eq!(f.render(), "child-process-exec node_modules/shell-pkg/lib/exec.js:2");
    let g = finding(AuditRule::ChildProcessSpawn, "node_modules/a.js", 1234567);
    assert_eq!(g.render(), "child-process-spawn node_modules/a.js:1234567");
}

#[test]
fn sorts_findings_by_path_then_line_then_rule() {
    let sorted = sort_findings(vec![
        finding(AuditRule::EvalUsage, "node_modules/sketchy/index.js", 3),
        finding(AuditRule::ChildProcessSpawn, "node_modules/shell-pkg/lib/exec.js", 2),
        finding(AuditRule::ChildProcessExec, "node_modules/shell-pkg/lib/exec.js", 2),
        finding(AuditRule::EvalUsage, "node_modules/sketchy/index.js", 1),
    ]);
    let rendered: Vec<String> = sorted.iter().map(|f| f.render()).collect();
    assert_eq!(
        rendered,
        vec![
            "child-process-exec node_modules/shell-pkg/lib/exec.js:2",
            "child-process-spawn node_modules/shell-pkg/lib/exec.js:2",
            "eval-usage node_modules/sketchy/index.js:1",
            "eval-usage node_modules/sketchy/index.js:3",
        ]
    );
}

#[test]
fn paths_sort_by_components_not_by_text() {
    // As text "a.b" < "a/b", but as paths "a" < "a.b", so "a/b" comes first.
    let sorted = sort_findings(vec![
        finding(AuditRule::EvalUsage, "node_modules/a.b/x.js", 1),
        finding(AuditRule::EvalUsage, "node_modules/a/b.js", 1),
    ]);
    assert_eq!(sorted[0].render(), "eval-usage node_modules/a/b.js:1");
    assert_eq!(sorted[1].render(), "eval-usage node_modules/a.b/x.js:1");
}

#[test]
fn finding_order_is_strict() {
    let a = finding(AuditRule::EvalUsage, "node_modules/a.js", 1);
    let b = finding(AuditRule::EvalUsage, "node_modules/a.js", 2);
    assert!(finding_less(&a, &b));
    assert!(!finding_less(&b, &a));
    assert!(!finding_less(&a, &a));
}

#[test]
fn skips_symlinks_and_hidden_directories() {
    assert_eq!(entry_action(EntryKind::Symlink, "nm/linked.js"), EntryAction::Skip);
    assert_eq!(entry_action(EntryKind::Directory, "nm/.cache"), EntryAction::Skip);
    assert_eq!(entry_action(EntryKind::Directory, "nm/pkg"), EntryAction::Descend);
    assert_eq!(entry_action(EntryKind::File, "nm/pkg/index.js"), EntryAction::Inspect);
    assert_eq!(entry_action(EntryKind::File, "nm/pkg/index.ts"), EntryAction::Skip);
    assert_eq!(entry_action(EntryKind::Other, "nm/pkg/fifo.js"), EntryAction::Skip);
    assert!(is_hidden("nm/.cache"));
    assert!(!is_hidden("nm/cache"));
}

#[test]
fn extension_rules_follow_path_extension() {
    assert!(!is_scannable_extension(".js"));
    assert!(is_scannable_extension("a.b.js"));
    assert!(!is_scannable_extension("js"));
    assert!(!is_scannable_extension("dir/index.js/.."));
    assert!(is_scannable_extension("dir/index.js/"));
}

#[test]
fn skips_files_larger_than_one_megabyte() {
    assert_eq!(MAX_FILE_SIZE_BYTES, 1024 * 1024);
    assert!(within_size_limit(1024 * 1024));
    assert!(!within_size_limit(1024 * 1024 + 1));
}

#[test]
fn report_counts_scanned_files_and_collects_findings() {
    let mut report = AuditReport::default();
    report.record_file("/r/node_modules", "/r/node_modules/a.js", "eval(1)\n");
    report.record_file("/r/node_modules", "/r/node_modules/b.js", "fine\n");
    assert_eq!(report.scanned_files, 2);
    assert_eq!(report.findings.len(), 1);
    assert_eq!(report.findings[0].render(), "eval-usage node_modules/a.js:1");
}

#[test]
fn finding_path_keeps_the_text_of_the_joined_path() {
    let findings = scan_file("/r/node_modules", "/r/node_modules/pkg//a/./b.js", "eval(x)");
    assert_eq!(findings.len(), 1);
    assert_eq!(findings[0].relative_path, "node_modules/pkg//a/./b.js");
    assert_eq!(findings[0].render(), "eval-usage node_modules/pkg//a/./b.js:1");
    let leading = scan_file("/r/node_modules/", "/r/node_modules/./pkg/c.js", "eval(x)");
    assert_eq!(leading[0].relative_path, "node_modules/pkg/c.js");
}

#[test]
fn report_order_does_not_depend_on_gathering_order() {
    let items = vec![
        finding(AuditRule::EvalUsage, "node_modules/b/index.js", 4),
        finding(AuditRule::ChildProcessExec, "node_modules/a/x.js", 2),
        finding(AuditRule::EvalUsage, "node_modules/a/x.js", 2),
        finding(AuditRule::ChildProcessSpawn, "node_modules/a/x.js", 1),
        finding(AuditRule::EvalUsage, "node_modules/a.b/y.js", 9),
    ];
    let forward = sort_findings(items.clone());
    let mut reversed_input = items.clone();
    reversed_input.reverse();
    let backward = sort_findings(reversed_input);
    let mut rotated_input = items;
    rotated_input.rotate_left(2);
    let rotated = sort_findings(rotated_input);
    assert_eq!(forward, backward);
    assert_eq!(forward, rotated);
    assert_eq!(forward[0].render(), "child-process-spawn node_modules/a/x.js:1");
    assert_eq!(forward[4].render(), "eval-usage node_modules/b/index.js:4");
}
