use mnesphere::calendar::parse_day;
use mnesphere::habit::{
    active_habits, add_habit_to, apply_cell, build_month, cell_month, habit_rename_target, habit_stats,
    last_row, month_days, next_state, normalize_state, parse_month, remove_habit, rename_column,
    render_month, set_cell, set_habit, state_mark, Counts, Habit, Matrix,
};

const MONTH: &str = "---\nmonth: \"2026-03\"\n---\n\n# 2026-03 打卡记录\n\n| 日期 | 跑步 | 读书 |\n| --- | --- | --- |\n| 2026-03-01 | done | x |\n| 2026-03-02 | missed |  |\n| bad | done | done |\n";

fn day(s: &str) -> i32 {
    parse_day(s).unwrap()
}

fn habit(name: &str, created: &str, archived: bool) -> Habit {
    Habit {
        name: name.to_string(),
        color: "cyan".to_string(),
        created: created.to_string(),
        note: String::new(),
        archived,
    }
}

fn cell(m: &Matrix, date: &str, h: &str) -> Option<String> {
    m.get(date).and_then(|r| r.get(h))
}

#[test]
fn states_normalize() {
    assert_eq!(normalize_state(" X "), "done");
    assert_eq!(normalize_state("✅"), "done");
    assert_eq!(normalize_state("[x]"), "done");
    assert_eq!(normalize_state("0"), "missed");
    assert_eq!(normalize_state("False"), "missed");
    assert_eq!(normalize_state("?"), "");
    assert_eq!(state_mark("done"), "done");
    assert_eq!(state_mark("missed"), "missed");
    assert_eq!(state_mark("x"), "");
}

#[test]
fn three_clicks_come_back() {
    assert_eq!(next_state(""), "done");
    assert_eq!(next_state("done"), "missed");
    assert_eq!(next_state("missed"), "");
    assert_eq!(next_state(next_state(next_state(""))), "");
}

#[test]
fn month_table_reads() {
    let m = parse_month(MONTH);
    assert_eq!(cell(&m, "2026-03-01", "跑步"), Some("done".to_string()));
    assert_eq!(cell(&m, "2026-03-01", "读书"), Some("done".to_string()));
    assert_eq!(cell(&m, "2026-03-02", "跑步"), Some("missed".to_string()));
    assert_eq!(cell(&m, "2026-03-02", "读书"), Some(String::new()));
    assert!(m.get("bad").is_none());
    assert_eq!(m.dates().len(), 2);
}

#[test]
fn days_of_a_month() {
    let d = month_days("2026-02");
    assert_eq!(d.len(), 28);
    assert_eq!(d[0], "2026-02-01");
    assert_eq!(d[27], "2026-02-28");
    assert_eq!(month_days("2024-02").len(), 29);
    assert!(month_days("nothing").is_empty());
}

#[test]
fn rows_run_to_today_or_month_end() {
    let today = day("2026-03-15");
    assert_eq!(last_row("2026-02", today), Some(day("2026-02-28")));
    assert_eq!(last_row("2026-03", today), Some(today));
    assert_eq!(last_row("2026-04", today), None);
}

#[test]
fn rendered_month_reads_back() {
    let habits = vec![habit("跑步", "2026-01-01", false)];
    let data = parse_month(MONTH);
    let text = render_month("2026-03", &habits, &data, day("2026-03-02"));
    assert_eq!(
        text,
        "---\nmonth: \"2026-03\"\n---\n\n# 2026-03 打卡记录\n\n> 由 mnesphere 维护。取值只有三种：`done` 做到了、`missed` 没做到、留空 未打卡。\n\n| 日期 | 跑步 |\n| --- | --- |\n| 2026-03-01 | done |\n| 2026-03-02 | missed |\n"
    );
    let back = parse_month(&text);
    assert_eq!(cell(&back, "2026-03-01", "跑步"), Some("done".to_string()));
    assert_eq!(cell(&back, "2026-03-02", "跑步"), Some("missed".to_string()));
    assert_eq!(cell(&back, "2026-03-01", "读书"), None);
}

#[test]
fn month_view_counts_past_days() {
    let habits = vec![habit("跑步", "2026-01-01", false), habit("旧的", "2025-01-01", true)];
    let data = parse_month(MONTH);
    let v = build_month("2026-03", &habits, &data, day("2026-03-02"));
    assert_eq!(v.month, "2026-03");
    assert_eq!(v.label, "2026 年 03 月");
    assert_eq!(v.habits.len(), 1);
    assert_eq!(v.days.len(), 31);
    assert_eq!(v.days[0].date, "2026-03-01");
    assert_eq!(v.days[0].day, 1);
    assert_eq!(v.days[0].weekday, 6);
    assert!(!v.days[0].future && !v.days[0].today);
    assert!(v.days[1].today && !v.days[1].future);
    assert!(v.days[2].future);
    assert_eq!(v.days[0].states.get("跑步"), Some("done".to_string()));
    assert_eq!(v.days[2].states.get("跑步"), Some(String::new()));
    assert_eq!(v.summary.len(), 1);
    assert_eq!(v.summary[0].0, "跑步");
    assert_eq!(v.summary[0].1, Counts { done: 1, missed: 1, none: 0 });
    let future = build_month("2026-04", &habits, &data, day("2026-03-02"));
    assert_eq!(future.summary[0].1, Counts { done: 0, missed: 0, none: 0 });
    assert_eq!(build_month("2026", &habits, &data, day("2026-03-02")).label, "2026");
}

fn history() -> Matrix {
    parse_month(
        "| 日期 | 跑步 |\n| --- | --- |\n| 2026-03-01 | done |\n| 2026-03-02 | done |\n| 2026-03-03 | missed |\n| 2026-03-04 | done |\n| 2026-03-05 | done |\n| 2026-03-06 | done |\n",
    )
}

#[test]
fn stats_follow_the_history() {
    let habits = vec![habit("跑步", "2026-03-01", false)];
    let s = habit_stats(&vec![history()], &habits, "跑步", day("2026-03-06"));
    assert_eq!(s.habit, "跑步");
    assert_eq!(s.current_streak, 3);
    assert_eq!(s.longest_streak, 3);
    assert_eq!(s.done, 5);
    assert_eq!(s.missed, 1);
    assert_eq!(s.none, 0);
    assert_eq!(s.first_date, "2026-03-01");
    assert_eq!(s.total_days, 6);
    assert_eq!(s.weeks.len(), 12);
    let last = &s.weeks[11];
    assert_eq!(last.label, "03-02");
    assert_eq!(last.total, 5);
    assert_eq!(last.done, 4);
    assert_eq!(s.weeks[10].label, "02-23");
    assert_eq!(s.weeks[10].total, 7);
    assert_eq!(s.weeks[10].done, 1);
}

#[test]
fn missed_today_breaks_the_streak() {
    let mut m = history();
    set_cell(&mut m, "跑步", "2026-03-07", "missed");
    let s = habit_stats(&vec![m], &vec![], "跑步", day("2026-03-07"));
    assert_eq!(s.current_streak, 0);
}

#[test]
fn silence_beyond_tolerance_breaks_the_streak() {
    let habits = vec![habit("跑步", "2026-01-01", false)];
    let s = habit_stats(&vec![history()], &habits, "跑步", day("2026-03-09"));
    assert_eq!(s.current_streak, 3);
    let s2 = habit_stats(&vec![history()], &habits, "跑步", day("2026-03-10"));
    assert_eq!(s2.current_streak, 0);
}

#[test]
fn no_streak_before_creation() {
    let habits = vec![habit("跑步", "2026-03-05", false)];
    let s = habit_stats(&vec![history()], &habits, "跑步", day("2026-03-06"));
    assert_eq!(s.current_streak, 2);
}

#[test]
fn check_in_month_and_errors() {
    let today = day("2026-03-06");
    assert_eq!(cell_month("2026-03-05", today), Ok("2026-03".to_string()));
    assert_eq!(cell_month("bad", today), Err("日期格式错误".to_string()));
    assert_eq!(cell_month("2026-03-07", today), Err("不能给未来的日期打卡".to_string()));
}

#[test]
fn check_in_reads_back_and_clears() {
    let habits = vec![habit("跑步", "2026-01-01", false)];
    let today = day("2026-03-06");
    let mut m = Matrix::new();
    assert_eq!(apply_cell(&habits, &mut m, "跑步", "2026-03-03", "✓", today), Ok(()));
    assert_eq!(cell(&m, "2026-03-03", "跑步"), Some("done".to_string()));
    assert_eq!(apply_cell(&habits, &mut m, "跑步", "2026-03-03", "", today), Ok(()));
    assert!(m.get("2026-03-03").is_none());
    assert_eq!(apply_cell(&habits, &mut m, "游泳", "2026-03-03", "done", today), Err("目标不存在".to_string()));
    assert_eq!(apply_cell(&habits, &mut m, "跑步", "2026-03-08", "done", today), Err("不能给未来的日期打卡".to_string()));
}

#[test]
fn renaming_moves_the_column() {
    let mut m = parse_month(MONTH);
    rename_column(&mut m, "跑步", "慢跑");
    assert_eq!(cell(&m, "2026-03-01", "慢跑"), Some("done".to_string()));
    assert_eq!(cell(&m, "2026-03-01", "跑步"), None);
    assert_eq!(cell(&m, "2026-03-02", "慢跑"), Some("missed".to_string()));
}

#[test]
fn adding_habits() {
    let mut hs: Vec<Habit> = vec![];
    assert_eq!(add_habit_to(&mut hs, "  晨读? ", None, None, "2026-03-06"), Ok(()));
    assert_eq!(hs.len(), 1);
    assert_eq!(hs[0].name, "晨读");
    assert_eq!(hs[0].color, "cyan");
    assert_eq!(hs[0].created, "2026-03-06");
    assert!(!hs[0].archived);
    assert_eq!(add_habit_to(&mut hs, "晨读", Some("red".into()), None, "x"), Err("已存在同名目标：晨读".to_string()));
    assert_eq!(add_habit_to(&mut hs, " ?? ", None, None, "x"), Err("目标名称不能为空".to_string()));
    assert_eq!(hs.len(), 1);
}

#[test]
fn renaming_habits() {
    let mut hs = vec![habit("晨读", "2026-01-01", false), habit("跑步", "2026-01-01", false)];
    assert_eq!(habit_rename_target(&hs, "晨读", Some("夜读".into())), Ok((0, "夜读".to_string())));
    assert_eq!(habit_rename_target(&hs, "跑步", Some("".into())), Ok((1, "跑步".to_string())));
    assert_eq!(habit_rename_target(&hs, "跑步", None), Ok((1, "跑步".to_string())));
    assert_eq!(habit_rename_target(&hs, "游泳", None), Err("目标不存在".to_string()));
    assert_eq!(habit_rename_target(&hs, "跑步", Some("晨读".into())), Err("已存在同名目标：晨读".to_string()));
    set_habit(&mut hs, 0, "夜读".to_string(), Some("red".into()), None, Some(true));
    assert_eq!(hs[0].name, "夜读");
    assert_eq!(hs[0].color, "red");
    assert!(hs[0].archived);
    assert_eq!(active_habits(&hs).len(), 1);
    remove_habit(&mut hs, "夜读");
    assert_eq!(hs.len(), 1);
    assert_eq!(hs[0].name, "跑步");
}
