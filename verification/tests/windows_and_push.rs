use mnesphere::github::{
    blob_sha_missing, seed_needs_branch, sha_or, tree_refused, tree_request, upload_refused,
};
use mnesphere::note::{count_words, fm_items};
use mnesphere::report::{missing_branch_outcome, RepoInfo};
use mnesphere::sync::{plan, pull_step, Action, Manifest, PullStep};
use mnesphere::state::SelfWrites;
use mnesphere::task::{parse_tasks, render_task, Task};
use mnesphere::vault::{is_ignored, is_markdown, sanitize_rel};

#[test]
fn windows_paths_stay_inside_the_vault() {
    assert_eq!(sanitize_rel("..\\a"), "a");
    assert_eq!(sanitize_rel("C:\\x"), "x");
    assert_eq!(sanitize_rel("C:x\\..\\y"), "x/y");
    assert_eq!(sanitize_rel("\\\\server\\share\\f.md"), "server/share/f.md");
    assert_eq!(sanitize_rel("a\\b/c.md"), "a/b/c.md");
    assert_eq!(sanitize_rel("D:"), "");
    assert_eq!(sanitize_rel("x/ab:c.md"), "x/ab:c.md");
    assert_eq!(sanitize_rel("notes\\v1:draft.md"), "notes/v1:draft.md");
}

#[test]
fn windows_paths_are_ignored_by_their_parts() {
    assert!(is_ignored("C:\\vault\\.git\\config"));
    assert!(is_ignored("C:\\vault\\node_modules\\x.md"));
    assert!(!is_ignored("C:\\vault\\notes\\x.md"));
    assert!(is_markdown("C:\\vault\\notes\\x.MD"));
}

#[test]
fn under_an_ignored_folder_everything_is_ignored() {
    assert!(is_ignored("v/.obsidian"));
    assert!(is_ignored("v/.obsidian/deep/er/file.md"));
    assert!(is_ignored("v/~$doc/inner.md"));
}

#[test]
fn ascii_words_are_counted() {
    assert_eq!(count_words("hello world"), 2);
    assert_eq!(count_words("- * --- ok!"), 1);
    assert_eq!(count_words("hello world") + count_words("a b"), count_words("hello world a b"));
}

#[test]
fn sequence_items_that_are_not_strings_are_left_out() {
    let fm = Some("tags: [a, 3, {k: v}, b]\n".to_string());
    assert_eq!(fm_items(&fm, "tags"), vec!["a".to_string(), "b".to_string()]);
}

#[test]
fn branch_lists_decide_emptiness() {
    let info = RepoInfo {
        full_name: "o/r".into(),
        default_branch: "main".into(),
        private: true,
        html_url: "u".into(),
        empty: false,
    };
    assert!(missing_branch_outcome(info.clone(), "dev", Some("[]".into())).unwrap().empty);
    assert!(missing_branch_outcome(info.clone(), "dev", Some("{}".into())).is_err());
    assert!(missing_branch_outcome(info, "dev", Some("not json".into())).is_err());
}

fn tree(pairs: &[(&str, &str)]) -> Manifest {
    let mut m = Manifest::new();
    for (p, s) in pairs {
        m.insert(p, s);
    }
    m
}

#[test]
fn a_pull_only_run_sends_nothing() {
    let a = plan(&tree(&[("a.md", "1")]), &tree(&[("b.md", "2")]), &tree(&[("b.md", "2"), ("c.md", "3")]));
    assert!(a.push_request(false).is_none());
    let (u, d) = a.push_request(true).unwrap();
    assert_eq!(u, vec!["a.md".to_string()]);
    assert_eq!(d, vec!["b.md".to_string()]);
    let quiet = plan(&tree(&[("a.md", "1")]), &tree(&[("a.md", "1")]), &tree(&[("a.md", "1")]));
    assert!(quiet.push_request(true).is_none());
}

#[test]
fn push_requests_and_refusals() {
    let (t, base) = tree_request(&vec![("a.md".to_string(), "s1".to_string())], &vec!["b.md".to_string()], "t0");
    assert_eq!(t.len(), 2);
    assert_eq!((t[0].path.as_str(), t[0].sha.as_deref()), ("a.md", Some("s1")));
    assert_eq!((t[1].path.as_str(), t[1].sha.as_deref()), ("b.md", None));
    assert_eq!(base.as_deref(), Some("t0"));
    assert!(tree_request(&vec![], &vec![], "").1.is_none());
    assert_eq!(upload_refused(409, "a.md", "x"), "仓库还是空的 —— 初始化第一个提交没生效，请再点一次同步。");
    assert_eq!(upload_refused(422, "a.md", "bad"), "上传 a.md 时出错：\nbad");
    assert_eq!(tree_refused(500, "boom"), "boom");
    assert_eq!(sha_or("abc", "none"), Ok("abc".to_string()));
    assert_eq!(sha_or("", &blob_sha_missing("a.md")), Err("上传 a.md 后没有拿到 blob sha".to_string()));
    assert!(seed_needs_branch(None, "dev"));
    assert!(!seed_needs_branch(None, "main"));
    assert!(!seed_needs_branch(Some("trunk".into()), "trunk"));
}

#[test]
fn pull_steps_follow_the_plan() {
    assert!(matches!(pull_step("a.md", Action::Download, Some(10)), PullStep::FetchInPlace));
    assert!(matches!(pull_step("a.md", Action::Conflict, Some(10)), PullStep::FetchAsCopy));
    assert!(matches!(pull_step("a.md", Action::Download, None), PullStep::Nothing));
    assert!(matches!(pull_step("a.md", Action::DeleteLocal, None), PullStep::DeleteLocal));
    assert!(matches!(pull_step("a.md", Action::Upload { resurrect: false }, Some(1)), PullStep::Nothing));
    match pull_step("big.bin", Action::Download, Some(20 * 1024 * 1024)) {
        PullStep::TooLarge(note) => assert_eq!(note, "big.bin（远端 20 MB，超过 10 MB）"),
        other => panic!("{other:?}"),
    }
}

#[test]
fn self_writes_over_a_history() {
    let mut w = SelfWrites::new();
    w.mark("C:\\Vault\\A.md", 1000);
    w.mark("c:/vault/b.md", 1800);
    assert!(w.is_self_write("c:/vault/a.md", 2499));
    assert!(!w.is_self_write("c:/vault/a.md", 2500));
    w.mark("c:/vault/c.md", 2600);
    assert!(w.is_self_write("C:\\VAULT\\B.md", 3299));
    assert!(w.is_self_write("c:/vault/c.md", 4099));
    assert!(!w.is_self_write("c:/vault/c.md", 4100));
}

#[test]
fn dates_in_other_decimal_digits_read_back() {
    let t = Task {
        line: 0,
        raw: String::new(),
        span: 0,
        title: "交表".to_string(),
        due: "２０２６-０３-０１".to_string(),
        priority: "normal".to_string(),
        note: String::new(),
        done: false,
    };
    let ts = parse_tasks(&render_task(&t).join("\n"));
    assert_eq!(ts.len(), 1);
    assert_eq!((ts[0].title.as_str(), ts[0].due.as_str()), ("交表", "２０２６-０３-０１"));
}

#[test]
fn frontmatter_fields_by_kind() {
    let fm = Some("s: hi\nn: 2.5\nb: false\nm: {x: 1}\n".to_string());
    assert_eq!(mnesphere::note::fm_str(&fm, "s"), "hi");
    assert_eq!(mnesphere::note::fm_str(&fm, "n"), "2.5");
    assert_eq!(mnesphere::note::fm_str(&fm, "b"), "false");
    assert_eq!(mnesphere::note::fm_str(&fm, "m"), "");
    assert_eq!(mnesphere::note::fm_str(&Some("{".to_string()), "s"), "");
    assert!(fm_items(&fm, "s").is_empty());
}
