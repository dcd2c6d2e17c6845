use mnesphere::index::{
    all_tags, backlinks, file_stem, find_by_target, guard_under_notes, index_stats, note_meta,
    resolve_link, Index, NoteMeta,
};
use mnesphere::search::{make_snippet, notes_by_mtime, rank_hits, search_notes, search_score, snippet, SearchHit};

fn meta(path: &str, stem: &str, raw: &str, mtime: u64) -> NoteMeta {
    note_meta(path, stem, raw, "日记", mtime)
}

fn sample_index() -> Index {
    let mut idx = Index::new();
    idx.insert(meta("笔记/rust.md", "rust", "---\ntags: [lang]\n---\n# Rust 入门\n正文 #编程 links [[go]]", 30));
    idx.insert(meta("笔记/go.md", "go", "# Go\n学 #编程 see [[rust]]", 10));
    idx.insert(meta("日记/2026-03-01.md", "2026-03-01", "today [[Rust 入门]]", 20));
    idx.insert(meta("笔记/lonely.md", "lonely", "nothing here", 5));
    idx
}

#[test]
fn metadata_of_a_document() {
    let m = meta("日记/2026-03-01.md", "2026-03-01", "---\ntitle: 周日\ntags: [life, 散步]\n---\n去公园 #散步 [[Park]]", 7);
    assert_eq!(m.path, "日记/2026-03-01.md");
    assert_eq!(m.stem, "2026-03-01");
    assert_eq!(m.title, "周日");
    assert_eq!(m.kind, "diary");
    assert_eq!(m.date, "2026-03-01");
    assert_eq!(m.tags, vec!["life".to_string(), "散步".to_string()]);
    assert_eq!(m.links, vec!["Park".to_string()]);
    assert_eq!(m.words, 6);
    assert_eq!(m.mtime, 7);
    let n = meta("笔记/x.md", "x", "---\ndate: 2025-01-01\n---\nbody", 0);
    assert_eq!(n.kind, "note");
    assert_eq!(n.date, "2025-01-01");
    assert_eq!(n.title, "x");
}

#[test]
fn index_reads_back_what_was_written() {
    let mut idx = sample_index();
    assert_eq!(idx.len(), 4);
    assert_eq!(idx.get("笔记/go.md").map(|m| m.title.clone()), Some("Go".to_string()));
    idx.insert(meta("笔记/go.md", "go", "# Golang", 11));
    assert_eq!(idx.len(), 4);
    assert_eq!(idx.get("笔记/go.md").map(|m| m.title.clone()), Some("Golang".to_string()));
    idx.remove("笔记/go.md");
    assert!(idx.get("笔记/go.md").is_none());
    assert_eq!(idx.len(), 3);
    idx.remove("笔记/none.md");
    assert_eq!(idx.len(), 3);
}

#[test]
fn stats_count_kinds_links_and_orphans() {
    let s = index_stats(&sample_index());
    assert_eq!(s.notes, 3);
    assert_eq!(s.diaries, 1);
    assert_eq!(s.links, 3);
    assert_eq!(s.orphans, 1);
    assert_eq!(s.words, 9 + 6 + 4 + 2);
}

#[test]
fn backlinks_by_stem_title_or_path() {
    let idx = sample_index();
    let b = backlinks(&idx, "笔记/rust.md", "rust", "Rust 入门");
    let paths: Vec<String> = b.iter().map(|m| m.path.clone()).collect();
    assert_eq!(paths, vec!["笔记/go.md".to_string(), "日记/2026-03-01.md".to_string()]);
    assert!(backlinks(&idx, "笔记/lonely.md", "lonely", "lonely").is_empty());
}

#[test]
fn stems_of_paths() {
    assert_eq!(file_stem("a/b/c.md"), Some("c".to_string()));
    assert_eq!(file_stem("c.tar.gz"), Some("c.tar".to_string()));
    assert_eq!(file_stem(".hidden"), Some(".hidden".to_string()));
    assert_eq!(file_stem("dir/"), Some("dir".to_string()));
    assert_eq!(file_stem(""), None);
}

#[test]
fn links_resolve_by_path_then_stem() {
    let idx = sample_index();
    assert_eq!(resolve_link(&idx, "笔记/go"), Some("笔记/go.md".to_string()));
    assert_eq!(resolve_link(&idx, " 笔记/go.md "), Some("笔记/go.md".to_string()));
    assert_eq!(resolve_link(&idx, "笔记\\go"), Some("笔记/go.md".to_string()));
    assert_eq!(resolve_link(&idx, "rust"), Some("笔记/rust.md".to_string()));
    assert_eq!(resolve_link(&idx, "x/2026-03-01.md"), Some("日记/2026-03-01.md".to_string()));
    assert_eq!(resolve_link(&idx, "missing"), None);
    assert_eq!(find_by_target(&idx, "go").map(|m| m.title), Some("Go".to_string()));
}

#[test]
fn notes_win_over_diaries_of_the_same_name() {
    let mut idx = Index::new();
    idx.insert(meta("日记/same.md", "same", "d", 1));
    idx.insert(meta("笔记/same.md", "same", "n", 1));
    assert_eq!(resolve_link(&idx, "same"), Some("笔记/same.md".to_string()));
}

#[test]
fn folders_only_under_notes() {
    assert_eq!(guard_under_notes("笔记", "笔记"), Ok(()));
    assert_eq!(guard_under_notes("笔记", "/笔记/子/"), Ok(()));
    assert_eq!(guard_under_notes("笔记", "笔记x"), Err("只能操作「笔记」目录下的文件夹".to_string()));
    assert!(guard_under_notes("笔记", "日记").is_err());
    assert!(guard_under_notes("笔记", "../笔记").is_err());
}

#[test]
fn tags_by_count_then_name() {
    let t = all_tags(&sample_index());
    assert_eq!(t, vec![("编程".to_string(), 2), ("lang".to_string(), 1)]);
}

#[test]
fn scores_add_up() {
    let tags = vec!["Rust".to_string()];
    assert_eq!(search_score("rust", "Rust Notes", "rust-notes", &tags, "rust is nice. RUST again"), 212);
    assert_eq!(search_score("go", "Rust", "rust", &vec![], "nothing"), 0);
    let many = "x ".repeat(30);
    assert_eq!(search_score("x", "", "", &vec![], &many), 30);
}

#[test]
fn snippets_centre_on_the_match() {
    assert_eq!(make_snippet("hello\nworld", "world"), "hello world");
    let body = format!("{}needle{}", "a".repeat(50), "b".repeat(100));
    let s = make_snippet(&body, "needle");
    assert_eq!(s, format!("…{}needle{}…", "a".repeat(30), "b".repeat(84)));
    let plain = "c".repeat(150);
    assert_eq!(make_snippet(&plain, "zzz"), "c".repeat(120));
    assert_eq!(snippet("Abc", "b"), Some("Abc".to_string()));
}

#[test]
fn ranking_is_stable_and_capped() {
    let idx = sample_index();
    let m = idx.get("笔记/go.md").unwrap().clone();
    let hits: Vec<SearchHit> = (0..100)
        .map(|i| SearchHit { meta: m.clone(), snippet: format!("{i}"), score: (i % 3) as i32 })
        .collect();
    let r = rank_hits(hits);
    assert_eq!(r.len(), 80);
    assert_eq!(r[0].score, 2);
    assert_eq!(r[0].snippet, "2");
    assert_eq!(r[1].snippet, "5");
    assert_eq!(r[33].score, 1);
    assert_eq!(r[33].snippet, "1");
}

#[test]
fn newest_first() {
    let paths: Vec<String> = notes_by_mtime(&sample_index()).iter().map(|m| m.path.clone()).collect();
    assert_eq!(
        paths,
        vec!["笔记/rust.md", "日记/2026-03-01.md", "笔记/go.md", "笔记/lonely.md"]
            .into_iter()
            .map(String::from)
            .collect::<Vec<_>>()
    );
}

#[test]
fn search_finds_ranked_hits() {
    let idx = sample_index();
    let notes = notes_by_mtime(&idx);
    let raws: Vec<Option<String>> = notes
        .iter()
        .map(|m| match m.path.as_str() {
            "笔记/rust.md" => Some("---\ntags: [lang]\n---\n# Rust 入门\n正文 #编程 links [[go]]".to_string()),
            "笔记/go.md" => Some("# Go\n学 #编程 see [[rust]]".to_string()),
            "日记/2026-03-01.md" => Some("today [[Rust 入门]]".to_string()),
            _ => None,
        })
        .collect();
    let hits = search_notes("  RUST ", &notes, &raws).unwrap();
    let got: Vec<(String, i32)> = hits.iter().map(|h| (h.meta.path.clone(), h.score)).collect();
    assert_eq!(
        got,
        vec![
            ("笔记/rust.md".to_string(), 171),
            ("日记/2026-03-01.md".to_string(), 11),
            ("笔记/go.md".to_string(), 11),
        ]
    );
    assert_eq!(hits[1].snippet, "today [[Rust 入门]]");
    assert!(search_notes("   ", &notes, &raws).unwrap().is_empty());
}
