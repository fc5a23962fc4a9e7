use std::collections::BTreeMap;
use std::io;

use scrutt::commands::{
    audit_result, install_result, map_spawn_error, npm_install_args, render_dependency_counts,
    render_group, render_summary, spawn_error, NPM_PROGRAM,
};
use scrutt::config_files::{FileChange, ShieldOutcome};
use scrutt::error::ScruttError;
use scrutt::pkg_json::PackageJson;

#[test]
fn renders_summary_in_stable_change_order() {
    let summary = render_summary(ShieldOutcome {
        scrutt_toml: FileChange::Created,
        npmrc: FileChange::Updated,
    });

    assert_eq!(
        summary,
        "Created: scrutt.toml; Updated: .npmrc (ignore-scripts=true)"
    );
}

#[test]
fn renders_files_with_the_same_change_together() {
    let outcome = ShieldOutcome {
        scrutt_toml: FileChange::Unchanged,
        npmrc: FileChange::Unchanged,
    };
    assert_eq!(render_summary(outcome), "Unchanged: scrutt.toml, .npmrc");
    assert_eq!(render_group(outcome, FileChange::Created), None);
    let created = ShieldOutcome {
        scrutt_toml: FileChange::Unchanged,
        npmrc: FileChange::Created,
    };
    assert_eq!(render_summary(created), "Created: .npmrc; Unchanged: scrutt.toml");
}

#[test]
fn maps_not_found_spawn_errors_to_missing_binary() {
    let error = map_spawn_error(
        "tests/fixtures/valid",
        io::Error::from(io::ErrorKind::NotFound),
    );

    match error {
        ScruttError::MissingBinary { program, source } => {
            assert_eq!(program, "npm");
            assert_eq!(source.kind(), io::ErrorKind::NotFound);
        }
        other => panic!("expected MissingBinary, got {other:?}"),
    }
}

#[test]
fn maps_other_spawn_errors_to_install_process_spawn() {
    let error = map_spawn_error(
        "tests/fixtures/valid",
        io::Error::from(io::ErrorKind::PermissionDenied),
    );

    match error {
        ScruttError::InstallProcessSpawn {
            program,
            cwd,
            source,
        } => {
            assert_eq!(program, "npm");
            assert_eq!(cwd, "tests/fixtures/valid");
            assert_eq!(source.kind(), io::ErrorKind::PermissionDenied);
        }
        other => panic!("expected InstallProcessSpawn, got {other:?}"),
    }
}

#[test]
fn spawn_error_follows_the_not_found_flag() {
    assert!(matches!(
        spawn_error("d", io::Error::other("x"), true),
        ScruttError::MissingBinary { .. }
    ));
    assert!(matches!(
        spawn_error("d", io::Error::from(io::ErrorKind::NotFound), false),
        ScruttError::InstallProcessSpawn { .. }
    ));
}

#[test]
fn install_runs_npm_without_scripts() {
    assert_eq!(NPM_PROGRAM, "npm");
    assert_eq!(npm_install_args(), vec!["install", "--ignore-scripts"]);
}

#[test]
fn install_fails_with_the_exit_code() {
    assert!(install_result("/p", true, Some(0)).is_ok());
    match install_result("/p", false, Some(23)) {
        Err(ScruttError::InstallFailed { program, cwd, code }) => {
            assert_eq!(program, "npm");
            assert_eq!(cwd, "/p");
            assert_eq!(code, Some(23));
        }
        other => panic!("expected InstallFailed, got {other:?}"),
    }
}

#[test]
fn audit_fails_exactly_when_there_are_findings() {
    assert!(audit_result(0).is_ok());
    match audit_result(2) {
        Err(ScruttError::AuditFindings { count }) => assert_eq!(count, 2),
        other => panic!("expected AuditFindings, got {other:?}"),
    }
}

#[test]
fn prints_dependency_counts_for_valid_manifest() {
    let mut deps = BTreeMap::new();
    deps.insert("a".to_string(), "1".to_string());
    deps.insert("b".to_string(), "2".to_string());
    deps.insert("c".to_string(), "3".to_string());
    let mut dev = BTreeMap::new();
    dev.insert("d".to_string(), "4".to_string());
    dev.insert("e".to_string(), "5".to_string());
    let manifest = PackageJson {
        name: Some("fixture-app".to_string()),
        dependencies: Some(deps),
        dev_dependencies: Some(dev),
    };
    assert_eq!(manifest.dependency_count(), 3);
    assert_eq!(manifest.dev_dependency_count(), 2);
    assert_eq!(render_dependency_counts(&manifest), "Dependencies: 3, DevDependencies: 2");
}

#[test]
fn missing_dependency_tables_count_zero() {
    let manifest = PackageJson {
        name: None,
        dependencies: None,
        dev_dependencies: None,
    };
    assert_eq!(manifest.dependency_count(), 0);
    assert_eq!(manifest.dev_dependency_count(), 0);
    assert_eq!(render_dependency_counts(&manifest), "Dependencies: 0, DevDependencies: 0");
}
