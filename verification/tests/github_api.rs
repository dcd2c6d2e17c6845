use mnesphere::github::{
    blob_sha, commit_message, conflict_name, gh_error, is_dirty, is_temp_name, newer, normalize_repo,
    oversize_note, parse_scopes, push_mode, repo_name, test_branch, tree_entries,
};
use mnesphere::sync::{final_head, short_commit};

#[test]
fn blob_hashes_match_git() {
    assert_eq!(blob_sha(b"hello\n"), "ce013625030ba8dba906f756967f9e9ca394464a");
    assert_eq!(blob_sha(b""), "e69de29bb2d1d6434b8b29ae775ad8c2e48c5391");
}

#[test]
fn repository_addresses() {
    assert_eq!(normalize_repo(" https://github.com/owner/repo.git/ "), Ok("owner/repo".to_string()));
    assert_eq!(normalize_repo("git@github.com:owner/repo.git"), Ok("owner/repo".to_string()));
    assert_eq!(normalize_repo("owner/repo"), Ok("owner/repo".to_string()));
    assert_eq!(normalize_repo("  "), Err("还没有填仓库地址".to_string()));
    assert_eq!(
        normalize_repo("just-a-name"),
        Err("仓库要写成 `owner/repo` 的形式（也可以直接粘 GitHub 网址）。当前填的是：just-a-name".to_string())
    );
}

#[test]
fn request_failures_are_explained() {
    assert_eq!(
        gh_error(404, "404 Not Found", "{\"message\":\"Not Found\"}"),
        "找不到（404）：确认 `owner/repo` 拼写正确、且 Token 对它有权限。\nNot Found"
    );
    assert_eq!(gh_error(409, "409 Conflict", "{\"message\":\"Git Repository is empty.\"}"), "冲突（409）：Git Repository is empty.");
    assert_eq!(gh_error(500, "500 Internal Server Error", "oops"), "GitHub 返回 500 Internal Server Error：oops");
    let long = "x".repeat(400);
    assert_eq!(gh_error(422, "422", &long), format!("请求被拒绝（422）：{}", "x".repeat(300)));
}

#[test]
fn new_repository_names() {
    assert_eq!(repo_name(" notes.git "), Ok("notes".to_string()));
    assert_eq!(repo_name("my_notes-2.0"), Ok("my_notes-2.0".to_string()));
    assert_eq!(repo_name(".git"), Err("仓库名不能为空".to_string()));
    assert_eq!(repo_name(".hidden"), Err("仓库名不能以 `.` 开头".to_string()));
    assert_eq!(repo_name("我的笔记"), Err("仓库名只能用字母、数字、`-`、`_`、`.`（GitHub 的限制）".to_string()));
}

#[test]
fn branches_and_scopes() {
    assert_eq!(test_branch(Some("dev".into()), "main"), "dev");
    assert_eq!(test_branch(Some("  ".into()), "main"), "main");
    assert_eq!(test_branch(None, "trunk"), "trunk");
    assert_eq!(parse_scopes(Some("repo, workflow,,  gist ".into())), vec!["repo", "workflow", "gist"]);
    assert!(parse_scopes(None).is_empty());
}

#[test]
fn remote_tree_listing() {
    let body = r#"{"truncated":false,"tree":[
        {"type":"blob","path":"a.md","sha":"111","size":5},
        {"type":"tree","path":"d","sha":"222"},
        {"type":"blob","path":"../x","sha":"3"},
        {"type":"blob","path":".git/config","sha":"4"},
        {"type":"blob","path":"b.png","sha":""},
        {"type":"blob","path":"c.md","sha":"5"}]}"#;
    assert_eq!(
        tree_entries(body),
        Ok(vec![("a.md".to_string(), "111".to_string(), 5), ("c.md".to_string(), "5".to_string(), 0)])
    );
    let cut = tree_entries(r#"{"truncated":true,"tree":[]}"#).unwrap_err();
    assert!(cut.starts_with("仓库文件太多"));
    assert!(tree_entries("not json").is_err());
    assert_eq!(tree_entries("{}"), Ok(vec![]));
}

#[test]
fn local_file_rules() {
    assert!(is_temp_name("a.md~"));
    assert!(is_temp_name("~$doc.docx"));
    assert!(!is_temp_name("a~b.md"));
    assert_eq!(oversize_note("big.zip", 12 * 1024 * 1024 + 5, false), "big.zip（12 MB，超过 10 MB）");
    assert_eq!(oversize_note("big.zip", 11 * 1024 * 1024, true), "big.zip（远端 11 MB，超过 10 MB）");
    assert_eq!(conflict_name("a", ".md", 1), "a (远端冲突).md");
    assert_eq!(conflict_name("a", ".md", 3), "a (远端冲突 3).md");
}

#[test]
fn pushes_and_messages() {
    assert_eq!(commit_message(None, "2026-03-06 10:00", 3, 1), "mnesphere 2026-03-06 10:00 · +3 -1");
    assert_eq!(commit_message(Some("msg".into()), "x", 3, 1), "msg");
    assert_eq!(push_mode(""), (true, false, true));
    assert_eq!(push_mode("abc"), (false, true, false));
    assert_eq!(short_commit("0123456789abcdef"), "0123456789");
    assert_eq!(short_commit("abc"), "abc");
    assert_eq!(final_head("", "abc"), "abc");
    assert_eq!(final_head("new", "abc"), "new");
}

#[test]
fn dirty_since_the_last_sync() {
    assert_eq!(newer(None, 5), Some(5));
    assert_eq!(newer(Some(9), 5), Some(9));
    assert_eq!(newer(Some(4), 5), Some(5));
    assert!(is_dirty(Some(100), Some(98)));
    assert!(!is_dirty(Some(100), Some(99)));
    assert!(!is_dirty(None, Some(1)));
    assert!(!is_dirty(Some(100), None));
    assert!(!is_dirty(Some(u64::MAX), Some(0)));
}

#[test]
fn every_written_form_reads_as_owner_and_name() {
    for f in [
        "https://github.com/me-1/my.repo_x",
        "https://github.com/me-1/my.repo_x.git",
        "https://github.com/me-1/my.repo_x/",
        "http://github.com/me-1/my.repo_x",
        "git@github.com:me-1/my.repo_x.git",
        "ssh://git@github.com/me-1/my.repo_x",
        "github.com/me-1/my.repo_x",
        "me-1/my.repo_x",
    ] {
        assert_eq!(normalize_repo(f), Ok("me-1/my.repo_x".to_string()), "{f}");
    }
}
