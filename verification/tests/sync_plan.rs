use mnesphere::github::safe_rel_path;
use mnesphere::sync::{plan, Action, Manifest, SyncPlan};

fn tree(pairs: &[(&str, &str)]) -> Manifest {
    let mut m = Manifest::new();
    for (p, s) in pairs {
        m.insert(p, s);
    }
    m
}

fn acts(l: &[(&str, &str)], r: &[(&str, &str)], b: &[(&str, &str)]) -> SyncPlan {
    plan(&tree(l), &tree(r), &tree(b))
}

fn count(a: &SyncPlan, f: impl Fn(&Action) -> bool) -> usize {
    a.entries().iter().filter(|(_, x)| f(x)).count()
}

/// First sync (no base): remote files come down, local files go up, and
/// nothing on the remote is deleted for being absent here.
#[test]
fn first_sync_never_deletes_remote() {
    let a = acts(
        &[("b.md", "s1"), ("c.md", "s2"), ("d.md", "s3")],
        &[("x.md", "s9"), ("y.md", "s8")],
        &[],
    );
    assert_eq!(count(&a, |x| matches!(x, Action::DeleteRemote)), 0, "{a:?}");
    assert_eq!(count(&a, |x| matches!(x, Action::Download)), 2, "{a:?}");
    assert_eq!(count(&a, |x| matches!(x, Action::Upload { .. })), 3, "{a:?}");
}

#[test]
fn remote_changed_only_downloads() {
    let a = acts(&[("a.md", "same")], &[("a.md", "newer")], &[("a.md", "same")]);
    assert_eq!(a.get("a.md"), Some(&Action::Download), "{a:?}");
}

#[test]
fn local_changed_only_uploads() {
    let a = acts(&[("a.md", "mine")], &[("a.md", "same")], &[("a.md", "same")]);
    assert_eq!(a.get("a.md"), Some(&Action::Upload { resurrect: false }), "{a:?}");
}

#[test]
fn both_changed_conflicts() {
    let a = acts(&[("a.md", "mine")], &[("a.md", "theirs")], &[("a.md", "base")]);
    assert_eq!(a.get("a.md"), Some(&Action::Conflict), "{a:?}");
}

#[test]
fn no_baseline_and_differing_content_is_conflict() {
    let a = acts(&[("a.md", "mine")], &[("a.md", "theirs")], &[]);
    assert_eq!(a.get("a.md"), Some(&Action::Conflict), "{a:?}");
}

#[test]
fn identical_content_is_noop() {
    let a = acts(&[("a.md", "x")], &[("a.md", "x")], &[("a.md", "x")]);
    assert!(a.is_empty(), "{a:?}");
}

#[test]
fn local_delete_propagates_when_remote_untouched() {
    let a = acts(&[], &[("a.md", "keep")], &[("a.md", "keep")]);
    assert_eq!(a.get("a.md"), Some(&Action::DeleteRemote), "{a:?}");
}

#[test]
fn remote_delete_propagates_when_local_untouched() {
    let a = acts(&[("a.md", "base")], &[], &[("a.md", "base")]);
    assert_eq!(a.get("a.md"), Some(&Action::DeleteLocal), "{a:?}");
}

#[test]
fn remote_delete_does_not_eat_local_edits() {
    let a = acts(&[("a.md", "mine")], &[], &[("a.md", "base")]);
    assert_eq!(a.get("a.md"), Some(&Action::Upload { resurrect: true }), "{a:?}");
}

#[test]
fn local_delete_does_not_eat_remote_edits() {
    let a = acts(&[], &[("a.md", "theirs")], &[("a.md", "base")]);
    assert_eq!(a.get("a.md"), Some(&Action::Download), "{a:?}");
}

#[test]
fn deletes_go_both_ways_independently() {
    let a = acts(
        &[("theirs.md", "same")],
        &[("mine.md", "same")],
        &[("mine.md", "same"), ("theirs.md", "same")],
    );
    assert_eq!(a.get("mine.md"), Some(&Action::DeleteRemote), "{a:?}");
    assert_eq!(a.get("theirs.md"), Some(&Action::DeleteLocal), "{a:?}");
}

#[test]
fn rejects_traversal_and_absolute_paths() {
    for bad in [
        "../../etc/passwd",
        "..\\..\\Windows\\System32\\x.dll",
        "/etc/passwd",
        "C:/Windows/x.dll",
        "C:////Windows////x.dll",
        "a/../../b.md",
        "a//b.md",
        ".mnesphere-seed",
        "",
    ] {
        assert!(safe_rel_path(bad).is_none(), "应收起却放行了: {bad}");
    }
}

#[test]
fn accepts_normal_relative_paths() {
    for (inn, want) in [
        ("笔记/2026-09-24.md", "笔记/2026-09-24.md"),
        ("附件/2026-09/a b.png", "附件/2026-09/a b.png"),
        ("任务/_tasks.md", "任务/_tasks.md"),
    ] {
        assert_eq!(safe_rel_path(inn).as_deref(), Some(want));
    }
}
