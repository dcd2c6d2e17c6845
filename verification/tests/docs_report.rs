use mnesphere::docs::{
    folder_rename_target, folder_taken, new_diary, new_folder, new_note, note_folder, rename_target, trash_name,
    with_meta,
};
use mnesphere::report::{
    account_info, checked_repo, create_refused, created_repo, gh_status, missing_branch_outcome, repo_url,
    sync_branch, sync_report, ConflictItem,
};

fn strs(v: &[&str]) -> Vec<String> {
    v.iter().map(|x| x.to_string()).collect()
}

#[test]
fn where_new_notes_go() {
    assert_eq!(note_folder("笔记", Some("/a/b/".into())), "笔记/a/b");
    assert_eq!(note_folder("笔记", Some("  ".into())), "笔记");
    assert_eq!(note_folder("笔记", None), "笔记");
    assert_eq!(new_note(" 计划? "), Ok(("计划".to_string(), "# 计划\n\n".to_string())));
    assert_eq!(new_note("???"), Err("标题不能为空".to_string()));
    assert_eq!(rename_target("新名字*"), Ok("新名字".to_string()));
    assert_eq!(rename_target(" "), Err("名称不能为空".to_string()));
    assert_eq!(trash_name("20260306-101010", "a.md"), "20260306-101010__a.md");
}

#[test]
fn where_new_diaries_go() {
    assert_eq!(
        new_diary("日记", "2026-03-05", "2026-03-06", ""),
        ("日记/2026-03/2026-03-05.md".to_string(), "---\ndate: 2026-03-05\n---\n\n".to_string())
    );
    assert_eq!(
        new_diary("日记", "bad", "2026-03-06", "T"),
        ("日记/2026-03/2026-03-06.md".to_string(), "---\ndate: 2026-03-06\n---\n\nT".to_string())
    );
}

#[test]
fn folders_stay_under_notes() {
    assert_eq!(new_folder("笔记", Some("/笔记/sub/".into()), "新建"), Ok("笔记/sub/新建".to_string()));
    assert_eq!(new_folder("笔记", None, "新建"), Ok("笔记/新建".to_string()));
    assert_eq!(new_folder("笔记", Some("日记".into()), "x"), Err("只能操作「笔记」目录下的文件夹".to_string()));
    assert_eq!(new_folder("笔记", None, "//"), Err("文件夹名不能为空".to_string()));
    assert_eq!(folder_rename_target("笔记", "笔记/a", "b"), Ok("b".to_string()));
    assert_eq!(folder_rename_target("笔记", "日记/a", "b"), Err("只能操作「笔记」目录下的文件夹".to_string()));
    assert_eq!(folder_rename_target("笔记", "笔记/a", ""), Err("文件夹名不能为空".to_string()));
    assert_eq!(folder_taken("x"), "已存在同名文件夹：x");
}

#[test]
fn diary_fields_are_set_and_removed() {
    let out = with_meta("---\ndate: 2026-03-05\n---\n\nbody", "mood", "好");
    assert!(out.starts_with("---\n"));
    assert!(out.contains("mood: 好\n"));
    assert!(out.contains("date: 2026-03-05\n"));
    assert!(out.ends_with("---\n\nbody"));
    assert_eq!(with_meta("---\ndate: 2026-03-05\n---\n\nbody", "date", "  "), "\nbody");
    assert_eq!(with_meta("plain", "k", "v"), "---\nk: v\n---\n\nplain");
}

#[test]
fn status_of_synchronisation() {
    let s = gh_status("https://github.com/o/r", "main", "2026-03-01 10:00:00", "abc", Some(100), Some(98));
    assert!(s.configured && s.dirty);
    assert_eq!(s.repo, "o/r");
    assert_eq!(s.url, "https://github.com/o/r");
    assert_eq!(s.last_commit, "abc");
    let quiet = gh_status("o/r", "main", "", "", Some(100), Some(98));
    assert!(quiet.configured && !quiet.dirty);
    let none = gh_status("", "main", "x", "", Some(100), Some(98));
    assert!(!none.configured && !none.dirty);
    assert_eq!(none.url, "");
    assert_eq!(repo_url("a/b"), "https://github.com/a/b");
    assert_eq!(sync_branch("  "), "main");
    assert_eq!(sync_branch(" dev "), "dev");
}

#[test]
fn the_report_of_a_synchronisation() {
    let r = sync_report(
        "o/r",
        "main".to_string(),
        strs(&["a.md"]),
        vec![],
        strs(&["b.md", "c.md"]),
        vec![],
        vec![],
        4,
        strs(&["big.zip（12 MB，超过 10 MB）"]),
        strs(&["n.md（正在编辑，已取消删除）"]),
        "0123456789abcdef",
        2,
        true,
        0,
    );
    assert_eq!(r.message, "同步完成：下载 1、上传 2。");
    assert_eq!(r.commit, "0123456789");
    assert_eq!(r.url, "https://github.com/o/r");
    assert_eq!(r.skipped, strs(&["big.zip（12 MB，超过 10 MB）", "n.md（正在编辑，已取消删除）"]));
    assert_eq!(r.unchanged, 4);
    let c = sync_report(
        "o/r",
        "main".to_string(),
        vec![],
        vec![],
        vec![],
        vec![],
        vec![ConflictItem { path: "x.md".into(), saved_as: "x (远端冲突).md".into() }],
        0,
        vec![],
        vec![],
        "",
        0,
        true,
        0,
    );
    assert_eq!(c.message, "同步完成：冲突 1。冲突文件的远端版本已另存为副本，本地原件未动。");
    assert_eq!(c.conflicts[0].saved_as, "x (远端冲突).md");
}

#[test]
fn repositories_and_accounts() {
    let body = r#"{"full_name":"o/r","default_branch":"dev","private":true,"html_url":"https://github.com/o/r"}"#;
    let info = checked_repo(body, "o/r").unwrap();
    assert_eq!(info.full_name, "o/r");
    assert_eq!(info.default_branch, "dev");
    assert!(info.private && !info.empty);
    let bare = checked_repo("{}", "o/r").unwrap();
    assert_eq!(bare.full_name, "o/r");
    assert_eq!(bare.default_branch, "main");
    assert!(!bare.private);
    assert!(checked_repo("nope", "o/r").is_err());
    let made = created_repo("{}").unwrap();
    assert!(made.private && made.empty);
    assert_eq!(made.full_name, "");
    assert_eq!(create_refused("x"), "建不了 `x`：可能这个名字已经被占了，或者不符合 GitHub 的命名规则。");
    let empty = missing_branch_outcome(info.clone(), "dev", Some("[]".into())).unwrap();
    assert!(empty.empty);
    assert_eq!(empty.default_branch, "dev");
    let want = "仓库能访问，但没有分支 `dev`。\n要么分支名填错了，要么这个仓库还没建过初始提交。".to_string();
    assert_eq!(missing_branch_outcome(info.clone(), "dev", Some("[{\"name\":\"main\"}]".into())).unwrap_err(), want);
    assert_eq!(missing_branch_outcome(info, "dev", None).unwrap_err(), want);
    let a = account_info("{\"login\":\"me\",\"name\":null}", Some("repo, gist".into())).unwrap();
    assert_eq!(a.login, "me");
    assert_eq!(a.name, "");
    assert_eq!(a.scopes, strs(&["repo", "gist"]));
    assert!(account_info("<html>", None).is_err());
}
