use mnesphere::task::{
    add_task_to, clean_title, delete_task_from, locate, norm_due, normalize_priority, parse_tasks,
    priority_mark, render_task, task_file_text, update_task_in, Task, HEADER,
};

const SAMPLE: &str = "# 任务\n\n- [ ] 交材料 @2026-09-22 !高\n  证书复印件 + 发票\n- [x] 买焊锡丝\n";

fn lines(s: &[&str]) -> Vec<String> {
    s.iter().map(|x| x.to_string()).collect()
}

#[test]
fn parse_reads_fields_and_notes() {
    let ts = parse_tasks(SAMPLE);
    assert_eq!(ts.len(), 2);
    let a = &ts[0];
    assert_eq!(a.line, 2);
    assert_eq!(a.raw, "- [ ] 交材料 @2026-09-22 !高");
    assert_eq!(a.span, 2);
    assert_eq!(a.title, "交材料");
    assert_eq!(a.due, "2026-09-22");
    assert_eq!(a.priority, "high");
    assert_eq!(a.note, "证书复印件 + 发票");
    assert!(!a.done);
    let b = &ts[1];
    assert_eq!(b.line, 4);
    assert_eq!(b.span, 1);
    assert_eq!(b.title, "买焊锡丝");
    assert_eq!(b.due, "");
    assert_eq!(b.priority, "normal");
    assert!(b.done);
}

#[test]
fn parse_skips_the_header_text() {
    assert!(parse_tasks(HEADER).is_empty());
}

#[test]
fn parse_strips_marks_in_any_order() {
    let ts = parse_tasks("* [X] !low 写周报 — @2026-01-05\n");
    assert_eq!(ts.len(), 1);
    assert_eq!(ts[0].title, "写周报");
    assert_eq!(ts[0].due, "2026-01-05");
    assert_eq!(ts[0].priority, "low");
    assert!(ts[0].done);
}

#[test]
fn notes_stop_at_blank_line_and_flush_text() {
    let ts = parse_tasks("- [ ] a\n  one\n\ttwo\nflush\n  three\n");
    assert_eq!(ts.len(), 1);
    assert_eq!(ts[0].note, "one two");
    assert_eq!(ts[0].span, 3);
}

#[test]
fn render_writes_marks_and_note_lines() {
    let t = Task {
        line: 0,
        raw: String::new(),
        span: 0,
        title: " 交材料 ".to_string(),
        due: "2026-09-22".to_string(),
        priority: "high".to_string(),
        note: "a\r\n\n b ".to_string(),
        done: false,
    };
    assert_eq!(render_task(&t), lines(&["- [ ] 交材料 @2026-09-22 !高", "  a", "  b"]));
    let u = Task { done: true, due: String::new(), priority: "normal".to_string(), note: String::new(), ..t };
    assert_eq!(render_task(&u), lines(&["- [x] 交材料"]));
}

#[test]
fn rendered_task_parses_back() {
    let t = Task {
        line: 0,
        raw: String::new(),
        span: 0,
        title: "买菜".to_string(),
        due: "2026-02-03".to_string(),
        priority: "low".to_string(),
        note: "葱 姜".to_string(),
        done: true,
    };
    let text = render_task(&t).join("\n");
    let ts = parse_tasks(&text);
    assert_eq!(ts.len(), 1);
    assert_eq!(ts[0].title, "买菜");
    assert_eq!(ts[0].due, "2026-02-03");
    assert_eq!(ts[0].priority, "low");
    assert_eq!(ts[0].note, "葱 姜");
    assert!(ts[0].done);
}

#[test]
fn priorities_and_marks() {
    assert_eq!(normalize_priority(" 高 "), "high");
    assert_eq!(normalize_priority("low"), "low");
    assert_eq!(normalize_priority("中"), "normal");
    assert_eq!(normalize_priority("whatever"), "normal");
    assert_eq!(priority_mark("high"), "!高");
    assert_eq!(priority_mark("low"), "!低");
    assert_eq!(priority_mark("normal"), "");
}

#[test]
fn due_dates_are_kept_only_when_they_read_as_dates() {
    assert_eq!(norm_due(Some(" 2026-01-02 ".to_string())), "2026-01-02");
    assert_eq!(norm_due(Some("tomorrow".to_string())), "");
    assert_eq!(norm_due(Some("2026-1-2".to_string())), "");
    assert_eq!(norm_due(None), "");
}

#[test]
fn titles_lose_line_breaks_and_extra_spaces() {
    assert_eq!(clean_title(" a\n b\t\tc\r "), "a b c");
    assert_eq!(clean_title("x|y:*"), "x|y:*");
    assert_eq!(clean_title(&"长".repeat(250)).chars().count(), 200);
}

#[test]
fn locate_prefers_the_hint_then_the_nearest_copy() {
    let ls = lines(&["x", "- [ ] a", "y", "- [ ] a", "z"]);
    assert_eq!(locate(&ls, "- [ ] a", 3), Ok(3));
    assert_eq!(locate(&ls, "- [ ] a", 0), Ok(1));
    assert_eq!(locate(&ls, "- [ ] a", 4), Ok(3));
    assert_eq!(locate(&ls, "- [ ] a", 2), Ok(1));
    assert!(locate(&ls, "- [ ] b", 1).is_err());
    let one = lines(&["- [ ] c", "q"]);
    assert_eq!(locate(&one, "- [ ] c", 9), Ok(0));
}

#[test]
fn missing_file_reads_as_the_header() {
    assert_eq!(task_file_text(None), HEADER);
    assert_eq!(task_file_text(Some("  \n".to_string())), HEADER);
    assert_eq!(task_file_text(Some("- [ ] a\n".to_string())), "- [ ] a\n");
}

#[test]
fn add_appends_a_rendered_task() {
    let out = add_task_to("# 任务", "  新任务 ", Some("2026-05-01".into()), Some("高".into()), Some(" 备注 ".into()))
        .unwrap();
    assert_eq!(out, "# 任务\n- [ ] 新任务 @2026-05-01 !高\n  备注\n");
    assert_eq!(add_task_to("x\n", "\n\t ", None, None, None), Err("任务标题不能为空".to_string()));
}

#[test]
fn update_changes_only_given_fields() {
    let out = update_task_in(SAMPLE, "- [ ] 交材料 @2026-09-22 !高", 2, None, None, None, None, Some(true)).unwrap();
    assert_eq!(out, "# 任务\n\n- [x] 交材料 @2026-09-22 !高\n  证书复印件 + 发票\n- [x] 买焊锡丝\n");
    let out2 = update_task_in(SAMPLE, "- [x] 买焊锡丝", 0, Some("买松香".into()), Some("bad".into()), Some("low".into()), None, None)
        .unwrap();
    assert_eq!(out2, "# 任务\n\n- [ ] 交材料 @2026-09-22 !高\n  证书复印件 + 发票\n- [x] 买松香 !低\n");
    assert!(update_task_in(SAMPLE, "- [ ] gone", 2, None, None, None, None, None).is_err());
    assert!(update_task_in(SAMPLE, "# 任务", 0, None, None, None, None, None).is_err());
}

#[test]
fn delete_removes_the_task_and_its_notes() {
    let out = delete_task_from(SAMPLE, "- [ ] 交材料 @2026-09-22 !高", 7).unwrap();
    assert_eq!(out, "# 任务\n\n- [x] 买焊锡丝\n");
    assert!(delete_task_from(SAMPLE, "- [ ] nope", 0).is_err());
}

#[test]
fn added_task_is_listed_last() {
    let before = parse_tasks(SAMPLE);
    let out = add_task_to(SAMPLE, "整理 发票", Some("2026-10-01".into()), Some("low".into()), Some("两张\n三张".into()))
        .unwrap();
    let after = parse_tasks(&out);
    assert_eq!(after.len(), before.len() + 1);
    for (a, b) in before.iter().zip(after.iter()) {
        assert_eq!((a.line, &a.raw, a.span, &a.title, &a.due, &a.priority, &a.note, a.done),
                   (b.line, &b.raw, b.span, &b.title, &b.due, &b.priority, &b.note, b.done));
    }
    let last = after.last().unwrap();
    assert_eq!((last.title.as_str(), last.due.as_str(), last.priority.as_str(), last.done), ("整理 发票", "2026-10-01", "low", false));
    assert_eq!(last.note, "两张 三张");
    assert_eq!(last.span, 3);
}

#[test]
fn added_task_after_a_file_without_final_break() {
    let out = add_task_to("- [x] 旧", "新", None, None, None).unwrap();
    let ts = parse_tasks(&out);
    assert_eq!(ts.len(), 2);
    assert_eq!((ts[0].title.as_str(), ts[0].done), ("旧", true));
    assert_eq!((ts[1].title.as_str(), ts[1].priority.as_str(), ts[1].done), ("新", "normal", false));
}

#[test]
fn writing_back_keeps_the_other_lines() {
    let text = "笔记\r\n\n- [ ] 甲\n  备注\n- [ ] 乙 !低\n结尾";
    let out = update_task_in(text, "- [ ] 乙 !低", 4, Some("乙二".into()), None, None, None, Some(true)).unwrap();
    let before: Vec<&str> = text.lines().collect();
    let after: Vec<&str> = out.lines().collect();
    assert_eq!(after.len(), before.len());
    assert_eq!(&after[..4], &before[..4]);
    assert_eq!(after[4], "- [x] 乙二 !低");
    assert_eq!(after[5], "结尾");
    let gone = delete_task_from(text, "- [ ] 甲", 2).unwrap();
    assert_eq!(gone.lines().collect::<Vec<_>>(), vec!["笔记", "", "- [ ] 乙 !低", "结尾"]);
}

#[test]
fn rendered_task_reads_back_whole() {
    let t = Task {
        line: 0,
        raw: String::new(),
        span: 0,
        title: "写 周报".to_string(),
        due: String::new(),
        priority: "high".to_string(),
        note: "附 表格".to_string(),
        done: false,
    };
    let lines = render_task(&t);
    let ts = parse_tasks(&lines.join("\n"));
    assert_eq!(ts.len(), 1);
    assert_eq!((ts[0].line, ts[0].raw.as_str(), ts[0].span), (0, lines[0].as_str(), lines.len()));
    assert_eq!((ts[0].title.as_str(), ts[0].due.as_str(), ts[0].priority.as_str(), ts[0].note.as_str(), ts[0].done),
               ("写 周报", "", "high", "附 表格", false));
}
