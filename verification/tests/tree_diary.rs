use mnesphere::diary::list_diaries;
use mnesphere::habit::Habit;
use mnesphere::habit_list::{list_habits, month_files};
use mnesphere::index::{note_meta, Index, NoteMeta};
use mnesphere::tree::{build_notes_tree, rollup_words, TreeNode};

fn meta(path: &str, stem: &str, raw: &str, mtime: u64) -> NoteMeta {
    note_meta(path, stem, raw, "日记", mtime)
}

fn folder(name: &str, path: &str, children: Vec<TreeNode>) -> TreeNode {
    TreeNode {
        name: name.to_string(),
        path: path.to_string(),
        is_dir: true,
        children,
        date: String::new(),
        words: 0,
        mtime: 0,
    }
}

fn notes_index() -> Index {
    let mut idx = Index::new();
    idx.insert(meta("笔记/sub/deep/c.md", "c", "one two", 3));
    idx.insert(meta("笔记/a.md", "a", "one two three", 1));
    idx.insert(meta("日记/2026-03-01.md", "2026-03-01", "x y z w", 2));
    idx.insert(meta("笔记/sub/b.md", "b", "1 2 3 4 5", 4));
    idx
}

fn shape(n: &TreeNode) -> String {
    if n.is_dir {
        let inner: Vec<String> = n.children.iter().map(shape).collect();
        format!("{}[{}]{}({})", n.name, n.path, n.words, inner.join(","))
    } else {
        format!("{}:{}:{}", n.name, n.path, n.words)
    }
}

#[test]
fn tree_puts_documents_into_the_folders_found() {
    let dirs = vec![
        folder("sub", "笔记/sub", vec![folder("deep", "笔记/sub/deep", vec![])]),
        folder("empty", "笔记/empty", vec![]),
    ];
    let tree = build_notes_tree("笔记", dirs, &notes_index());
    let got: Vec<String> = tree.iter().map(shape).collect();
    assert_eq!(
        got,
        vec![
            "sub[笔记/sub]7(deep[笔记/sub/deep]2(c:笔记/sub/deep/c.md:2),b:笔记/sub/b.md:5)",
            "empty[笔记/empty]0()",
            "a:笔记/a.md:3",
        ]
    );
}

#[test]
fn tree_makes_missing_folders() {
    let tree = build_notes_tree("笔记", vec![], &notes_index());
    let got: Vec<String> = tree.iter().map(shape).collect();
    assert_eq!(
        got,
        vec!["a:笔记/a.md:3", "sub[笔记/sub]7(b:笔记/sub/b.md:5,deep[笔记/deep]2(c:笔记/sub/deep/c.md:2))"]
    );
}

#[test]
fn folder_words_add_up() {
    let mut leaf = folder("x", "x", vec![]);
    leaf.is_dir = false;
    leaf.words = 4;
    let mut other = folder("y", "y", vec![]);
    other.is_dir = false;
    other.words = 6;
    let mut root = folder("r", "r", vec![folder("s", "r/s", vec![leaf]), other]);
    root.words = 99;
    assert_eq!(rollup_words(&mut root), 10);
    assert_eq!(root.words, 10);
    assert_eq!(root.children[0].words, 4);
}

#[test]
fn diaries_by_month_newest_first() {
    let notes = vec![
        meta("日记/2026-03/2026-03-02.md", "2026-03-02", "a", 9),
        meta("日记/2026-02/2026-02-10.md", "2026-02-10", "b", 8),
        meta("日记/2026-03/2026-03-05.md", "2026-03-05", "c", 7),
        meta("笔记/x.md", "x", "d", 6),
        meta("日记/misc/note.md", "note", "e", 5),
    ];
    let ms = list_diaries("日记", &notes);
    let got: Vec<(String, String, Vec<String>)> = ms
        .iter()
        .map(|m| (m.month.clone(), m.label.clone(), m.items.iter().map(|x| x.stem.clone()).collect()))
        .collect();
    assert_eq!(
        got,
        vec![
            ("misc".to_string(), "misc".to_string(), vec!["note".to_string()]),
            ("2026-03".to_string(), "2026-03".to_string(), vec!["2026-03-05".to_string(), "2026-03-02".to_string()]),
            ("2026-02".to_string(), "2026-02".to_string(), vec!["2026-02-10".to_string()]),
        ]
    );
}

fn habit(name: &str, created: &str) -> Habit {
    Habit { name: name.into(), color: "cyan".into(), created: created.into(), note: String::new(), archived: false }
}

#[test]
fn habits_listed_by_creation_then_name() {
    let hs = vec![habit("b", "2026-02-01"), habit("a", "2026-03-01"), habit("a", "2026-02-01"), habit("c", "")];
    let names: Vec<(String, String)> = list_habits(hs).into_iter().map(|h| (h.created, h.name)).collect();
    assert_eq!(
        names,
        vec![
            ("".to_string(), "c".to_string()),
            ("2026-02-01".to_string(), "a".to_string()),
            ("2026-02-01".to_string(), "b".to_string()),
            ("2026-03-01".to_string(), "a".to_string()),
        ]
    );
}

#[test]
fn month_tables_among_files() {
    let names: Vec<String> = ["2026-03.md", "2026-01.md", "_habits.md", "2026-3.md", "abcd-ef.md", "2026-02.txt", "年-1.md"]
        .iter()
        .map(|s| s.to_string())
        .collect();
    assert_eq!(month_files(&names), vec!["2026-01", "2026-03", "abcd-ef"]);
}
