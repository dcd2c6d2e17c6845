use mnesphere::config::{
    config_path, has_secret, keep_sync_record, migrate_settings, preset, theme_presets, Behavior, Editor,
    GithubConfig, LEGACY_DIARY_TEMPLATE,
};
use mnesphere::state::{normalize, rel_path, watch_batch, watched_paths, SelfWrites, SELF_WRITE_WINDOW_MS};
use mnesphere::vault::{
    candidate, check_paste, extension, external_url, is_ignored, is_markdown, sanitize_rel, sniff_image_ext,
    split_file_name, PasteError, MAX_PASTE_BYTES,
};

fn strs(v: &[&str]) -> Vec<String> {
    v.iter().map(|x| x.to_string()).collect()
}

#[test]
fn relative_paths_cannot_climb_out() {
    assert_eq!(sanitize_rel("../../etc/passwd"), "etc/passwd");
    assert_eq!(sanitize_rel("/abs/./x.md"), "abs/x.md");
    assert_eq!(sanitize_rel("a//b/"), "a/b");
    assert_eq!(sanitize_rel(""), "");
}

#[test]
fn markdown_by_extension() {
    assert!(is_markdown("a/b.md"));
    assert!(is_markdown("B.MarkDown"));
    assert!(is_markdown("x.mdx"));
    assert!(!is_markdown("x.txt"));
    assert!(!is_markdown(".md"));
    assert!(!is_markdown("md"));
    assert_eq!(extension("a.tar.gz"), Some("gz".to_string()));
    assert_eq!(extension("noext"), None);
}

#[test]
fn ignored_paths() {
    assert!(is_ignored("v/.git/config"));
    assert!(is_ignored("v/node_modules/x.md"));
    assert!(is_ignored("v/.obsidian/app.json"));
    assert!(is_ignored("v/.mnesphere/cache"));
    assert!(is_ignored("v/.a.md.mnesphere-tmp123"));
    assert!(is_ignored("v/~$doc.md"));
    assert!(is_ignored("v/x.swp"));
    assert!(!is_ignored("v/笔记/a.md"));
    assert!(!is_ignored("v/.github/x.md"));
}

#[test]
fn images_by_their_first_bytes() {
    assert_eq!(sniff_image_ext(&[0x89, 0x50, 0x4E, 0x47, 0x0D, 0x0A, 0x1A, 0x0A, 0]), Some("png"));
    assert_eq!(sniff_image_ext(&[0xFF, 0xD8, 0xFF, 0xE0]), Some("jpg"));
    assert_eq!(sniff_image_ext(b"GIF89a..."), Some("gif"));
    assert_eq!(sniff_image_ext(b"GIF87a"), Some("gif"));
    assert_eq!(sniff_image_ext(b"BM...."), Some("bmp"));
    assert_eq!(sniff_image_ext(b"RIFF\0\0\0\0WEBPVP8 "), Some("webp"));
    assert_eq!(sniff_image_ext(b"RIFF\0\0\0\0WAVE"), None);
    assert_eq!(sniff_image_ext(b"hello"), None);
    assert_eq!(sniff_image_ext(&[]), None);
}

#[test]
fn pastes_are_checked() {
    assert_eq!(check_paste(&[]), Err(PasteError::Empty));
    assert_eq!(check_paste(b"text"), Err(PasteError::NotImage));
    assert_eq!(check_paste(b"BMxx"), Ok("bmp"));
    let big = vec![0x42u8; MAX_PASTE_BYTES + 1];
    assert_eq!(check_paste(&big), Err(PasteError::TooLarge(MAX_PASTE_BYTES + 1)));
    let mut limit = vec![0x42u8; MAX_PASTE_BYTES];
    limit[1] = 0x4D;
    assert_eq!(check_paste(&limit), Ok("bmp"));
}

#[test]
fn only_web_and_mail_links_open() {
    assert_eq!(external_url(" https://example.com "), Ok("https://example.com".to_string()));
    assert_eq!(external_url("http://x"), Ok("http://x".to_string()));
    assert_eq!(external_url("mailto:a@b.c"), Ok("mailto:a@b.c".to_string()));
    assert_eq!(external_url("file:///etc/passwd"), Err("只允许打开 http / https / mailto 链接".to_string()));
    assert!(external_url("javascript:alert(1)").is_err());
}

#[test]
fn attachment_names() {
    assert_eq!(split_file_name("a.b.png"), ("a.b".to_string(), ".png".to_string()));
    assert_eq!(split_file_name("noext"), ("noext".to_string(), String::new()));
    assert_eq!(split_file_name(".hidden"), (String::new(), ".hidden".to_string()));
    assert_eq!(candidate("附件/2026-03", "pic", ".png", 0), "附件/2026-03/pic.png");
    assert_eq!(candidate("附件/2026-03", "pic", ".png", 12), "附件/2026-03/pic-12.png");
}

#[test]
fn defaults_of_the_settings() {
    let e = Editor::default();
    assert_eq!(e.default_mode, "edit");
    assert_eq!(e.autosave_ms, 900);
    assert_eq!(e.diary_dir, "日记");
    assert_eq!(e.diary_template, "");
    let b = Behavior::default();
    assert!(b.close_to_tray && !b.autostart && !b.start_hidden);
    assert_eq!(b.default_activity, "diary");
    assert_eq!(b.note_sort, "name");
    let g = GithubConfig::default();
    assert_eq!(g.branch, "main");
    assert_eq!(e.sub("notes"), "笔记");
    assert_eq!(e.sub("task"), "任务");
    assert_eq!(e.sub("other"), "other");
}

#[test]
fn old_settings_are_brought_up_to_date() {
    let mut e = Editor { diary_template: LEGACY_DIARY_TEMPLATE.to_string(), ..Editor::default() };
    let mut b = Behavior {
        default_activity: String::new(),
        auto_create_diary: false,
        note_sort: String::new(),
        ..Behavior::default()
    };
    assert!(migrate_settings(&mut e, &mut b));
    assert_eq!(e.diary_template, "");
    assert_eq!(b.default_activity, "diary");
    assert!(b.auto_create_diary);
    assert_eq!(b.note_sort, "name");
    assert!(!migrate_settings(&mut e, &mut b));
    let mut e2 = Editor { diary_template: "# 我的模板".to_string(), ..Editor::default() };
    let mut b2 = Behavior { auto_create_diary: false, note_sort: "mtime".into(), ..Behavior::default() };
    assert!(!migrate_settings(&mut e2, &mut b2));
    assert_eq!(e2.diary_template, "# 我的模板");
    assert!(!b2.auto_create_diary);
    assert_eq!(b2.note_sort, "mtime");
}

#[test]
fn sync_record_is_kept() {
    let cur = GithubConfig {
        repo: "a/b".into(),
        branch: "main".into(),
        last_sync: "2026-03-01 10:00".into(),
        last_commit: "abc".into(),
    };
    let mut inc = GithubConfig { repo: "c/d".into(), branch: "dev".into(), last_sync: String::new(), last_commit: "zzz".into() };
    keep_sync_record(&mut inc, &cur);
    assert_eq!(inc.repo, "c/d");
    assert_eq!(inc.branch, "dev");
    assert_eq!(inc.last_sync, "2026-03-01 10:00");
    assert_eq!(inc.last_commit, "abc");
}

#[test]
fn colour_presets() {
    assert_eq!(preset("nord"), ("#88c0d0", "#a3be8c", "#2e3440", "#eceff4"));
    assert_eq!(preset("unknown"), ("#22d3ee", "#5eead4", "#0a0e13", "#dbe6f0"));
    let all = theme_presets();
    assert_eq!(all.len(), 6);
    assert_eq!(all[0].id, "cyan");
    assert_eq!(all[5].id, "rose");
    assert_eq!(all[5].accent, "#f5a0b8");
}

#[test]
fn config_file_and_secrets() {
    assert_eq!(config_path("/home/u/.config/mnesphere"), "/home/u/.config/mnesphere/config.json");
    assert_eq!(config_path("/x/"), "/x/config.json");
    assert!(has_secret(&Some("k".into())));
    assert!(!has_secret(&Some(String::new())));
    assert!(!has_secret(&None));
}

#[test]
fn own_writes_are_seen_within_the_window_only() {
    let mut w = SelfWrites::new();
    w.mark("C:\\Vault\\A.md", 1000);
    assert!(w.is_self_write("c:/vault/a.md", 1000 + SELF_WRITE_WINDOW_MS - 1));
    assert!(!w.is_self_write("c:/vault/b.md", 1001));
    assert!(!w.is_self_write("c:/vault/a.md", 1000 + SELF_WRITE_WINDOW_MS));
    assert!(!w.is_self_write("c:/vault/a.md", 1001));
    assert_eq!(normalize("A\\B.MD"), "a/b.md");
}

#[test]
fn paths_relative_to_the_vault() {
    assert_eq!(rel_path("/v", "/v/笔记/a.md"), "笔记/a.md");
    assert_eq!(rel_path("/v/", "/v/a.md"), "a.md");
    assert_eq!(rel_path("/v", "/w/a.md"), "/w/a.md");
    assert_eq!(rel_path("/v", "C:\\x\\a.md"), "C:/x/a.md");
}

#[test]
fn a_batch_of_changes() {
    assert_eq!(watched_paths(&strs(&["/v/a.md", "/v/.git/HEAD", "/v/b.png"])), strs(&["/v/a.md", "/v/b.png"]));
    let mut w = SelfWrites::new();
    w.mark("/v/mine.md", 100);
    let batch = strs(&["/v/a.md", "/v/mine.md", "/v/pic.png", "/v/a.md"]);
    let (re, touched) = watch_batch(&mut w, "/v", &batch, 200);
    assert_eq!(re, strs(&["/v/a.md", "/v/a.md"]));
    assert_eq!(touched, strs(&["a.md", "pic.png"]));
    let (re2, touched2) = watch_batch(&mut w, "/v", &strs(&["/v/mine.md"]), 100 + SELF_WRITE_WINDOW_MS);
    assert_eq!(re2, strs(&["/v/mine.md"]));
    assert_eq!(touched2, strs(&["mine.md"]));
}
