use scrutt::config_files::{
    npmrc_update, patch_npmrc, scrutt_toml_update, FileChange, NPMRC_BASELINE_LINE,
    SCRUTT_TOML_BASELINE,
};
use scrutt::error::{NpmrcPatchIssue, ScruttError};

fn patched(contents: &str) -> String {
    patch_npmrc(contents, ".npmrc").expect("patch succeeds")
}

#[test]
fn creates_scrutt_toml_once() {
    let first = scrutt_toml_update(false);
    let second = scrutt_toml_update(true);

    assert_eq!(first.change, FileChange::Created);
    assert_eq!(first.contents.as_deref(), Some(SCRUTT_TOML_BASELINE));
    assert_eq!(second.change, FileChange::Unchanged);
    assert!(second.contents.is_none());
    assert_eq!(SCRUTT_TOML_BASELINE, "[shield]\nignore_scripts = true\n");
}

#[test]
fn updates_existing_false_ignore_scripts() {
    let update = npmrc_update(".npmrc", Some(b"save-exact=true\nignore-scripts=false\n".to_vec()))
        .expect("updates npmrc");

    assert_eq!(update.change, FileChange::Updated);
    assert_eq!(update.contents.as_deref(), Some("save-exact=true\nignore-scripts=true\n"));
}

#[test]
fn rejects_conflicting_duplicate_ignore_scripts_entries() {
    let error = npmrc_update(".npmrc", Some(b"ignore-scripts=false\nignore-scripts=true\n".to_vec()))
        .err()
        .expect("conflict is an error");

    match error {
        ScruttError::InvalidNpmrcState { reason, path } => {
            assert_eq!(reason, NpmrcPatchIssue::ConflictingDuplicateKeys);
            assert_eq!(path, ".npmrc");
        }
        other => panic!("expected InvalidNpmrcState, got {other:?}"),
    }
}

#[test]
fn rejects_non_utf8_npmrc() {
    let error = npmrc_update("/p/.npmrc", Some(vec![0x66, 0xff, 0x0a])).err().expect("error");
    match error {
        ScruttError::InvalidNpmrcState { reason, path } => {
            assert_eq!(reason, NpmrcPatchIssue::NonUtf8Content);
            assert_eq!(path, "/p/.npmrc");
        }
        other => panic!("expected InvalidNpmrcState, got {other:?}"),
    }
}

#[test]
fn creates_missing_npmrc() {
    let update = npmrc_update(".npmrc", None).expect("creates");
    assert_eq!(update.change, FileChange::Created);
    assert_eq!(update.contents.as_deref(), Some(NPMRC_BASELINE_LINE));
    assert_eq!(NPMRC_BASELINE_LINE, "ignore-scripts=true\n");
}

#[test]
fn leaves_enabled_npmrc_unchanged() {
    let update = npmrc_update(".npmrc", Some(b"a=1\n  ignore-scripts = true \n".to_vec())).expect("ok");
    assert_eq!(update.change, FileChange::Unchanged);
    assert!(update.contents.is_none());
}

#[test]
fn appends_setting_when_absent() {
    assert_eq!(patched(""), "ignore-scripts=true\n");
    assert_eq!(patched("a=1"), "a=1\nignore-scripts=true\n");
    assert_eq!(patched("a=1\n"), "a=1\nignore-scripts=true\n");
    assert_eq!(patched("# ignore-scripts=false\n"), "# ignore-scripts=false\nignore-scripts=true\n");
    assert_eq!(patched("; ignore-scripts=false"), "; ignore-scripts=false\nignore-scripts=true\n");
}

#[test]
fn rewrites_every_setting_keeping_indentation() {
    assert_eq!(
        patched("  ignore-scripts = no\nx=y\n\tignore-scripts=no"),
        "  ignore-scripts=true\nx=y\n\tignore-scripts=true"
    );
}

#[test]
fn rewriting_drops_carriage_returns_of_ended_lines() {
    assert_eq!(patched("a=1\r\nignore-scripts=false\r\n"), "a=1\nignore-scripts=true\n");
}

#[test]
fn patching_twice_changes_nothing() {
    for input in [
        "",
        "a=1",
        "save-exact=true\nignore-scripts=false\n",
        "x\r\r\nignore-scripts=0\r",
        "ignore-scripts=true\n",
    ] {
        let once = patched(input);
        assert_eq!(patched(&once), once);
        let update = npmrc_update(".npmrc", Some(once.into_bytes())).expect("ok");
        assert_eq!(update.change, FileChange::Unchanged);
    }
}
