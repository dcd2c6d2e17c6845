//! Tasks: one list file, written back line by line.
//!
//! One task per line, the markers `@date` and `!priority` both optional,
//! a note on the indented lines that follow:
//!
//! ```text
//! - [ ] 交材料 @2026-09-22 !高
//!   证书复印件 + 发票，一起交到教务
//! - [x] 买焊锡丝
//! ```
//!
//! Edits replace only the lines of the task they touch: the user's own
//! order, blank lines and headings stay as they are. A task carries the
//! text of its line when it was read; that text, not the line number, is
//! what finds it again.

use vstd::prelude::*;
use crate::text::{
    ascii_lower_seq, chars_eq, chars_of, concat, ends_with, is_prefix, is_suffix, is_ws,
    is_ws_char, join, join_exec, keys_of, lines, lines_exec, occurs_at, occurs_at_exec, push_all,
    replace_char, replace_char_exec, slice_chars, starts_with, string_of, trim, trim_end_chars,
    trim_end_chars_exec, trim_exec, words, words_exec,
};
use crate::unicode::{is_digit_char, is_decimal};

verus! {

/// The file the tasks live in, under the task folder.
pub const TASK_FILE: &'static str = "_tasks.md";

/// What a missing or blank task file reads as. It is only an explanation
/// for people; it holds no task.
pub const HEADER: &'static str = "# 任务\n\n> 这个文件由 mnesphere 维护，也可以直接手改。一行一条：\n> `- [ ] 标题 @2026-09-22 !高`，日期和优先级都能省；\n> 下一行缩进两格写备注；做完了把 `[ ]` 改成 `[x]`。\n";

/// A task as read from the list.
#[derive(Clone, Debug)]
pub struct Task {
    /// 0-based line number when read; only a hint when writing back.
    pub line: usize,
    /// The text of the task's line when read: what finds it again.
    pub raw: String,
    /// How many lines it takes: 1 plus its note lines.
    pub span: usize,
    pub title: String,
    /// `YYYY-MM-DD`, or empty when it has no date.
    pub due: String,
    /// `high` / `normal` / `low`
    pub priority: String,
    pub note: String,
    pub done: bool,
}

/// A task as a mathematical value.
pub struct TaskSpec {
    pub line: nat,
    pub raw: Seq<char>,
    pub span: nat,
    pub title: Seq<char>,
    pub due: Seq<char>,
    pub priority: Seq<char>,
    pub note: Seq<char>,
    pub done: bool,
}

impl View for Task {
    type V = TaskSpec;

    open spec fn view(&self) -> TaskSpec {
        TaskSpec {
            line: self.line as nat,
            raw: self.raw@,
            span: self.span as nat,
            title: self.title@,
            due: self.due@,
            priority: self.priority@,
            note: self.note@,
            done: self.done,
        }
    }
}

pub open spec fn tasks_view(v: Seq<Task>) -> Seq<TaskSpec> {
    v.map_values(|t: Task| t@)
}

// ───────────────────────── the line grammar ─────────────────────────

/// Index of the first non-whitespace character at or after `from`.
pub open spec fn ws_run(s: Seq<char>, from: int) -> int
    decreases s.len() - from,
{
    if 0 <= from < s.len() && is_ws(s[from]) {
        ws_run(s, from + 1)
    } else {
        from
    }
}

pub proof fn lemma_ws_run(s: Seq<char>, from: int)
    requires
        0 <= from,
    ensures
        from <= ws_run(s, from),
        from <= s.len() ==> ws_run(s, from) <= s.len(),
        forall|k: int| from <= k < ws_run(s, from) ==> is_ws(s[k]),
        ws_run(s, from) < s.len() ==> !is_ws(s[ws_run(s, from)]),
    decreases s.len() - from,
{
    if 0 <= from < s.len() && is_ws(s[from]) {
        lemma_ws_run(s, from + 1);
    }
}

pub open spec fn is_bullet(c: char) -> bool {
    c == '-' || c == '*' || c == '+'
}

/// A task line: whitespace, a bullet (`-`, `*` or `+`), at least one
/// whitespace, `[ ]`, `[x]` or `[X]`, then the rest of the line after any
/// whitespace. Gives whether it is done and that rest.
pub open spec fn task_line(l: Seq<char>) -> Option<(bool, Seq<char>)> {
    let i = ws_run(l, 0);
    if i < l.len() && is_bullet(l[i]) {
        let j = ws_run(l, i + 1);
        if j > i + 1 && l.len() - j > 2 && l[j] == '[' && (l[j + 1] == ' ' || l[j + 1] == 'x' || l[j
            + 1] == 'X') && l[j + 2] == ']' {
            Some((l[j + 1] != ' ', l.skip(ws_run(l, j + 3))))
        } else {
            None
        }
    } else {
        None
    }
}

pub open spec fn digits_at(s: Seq<char>, from: int, n: int) -> bool {
    forall|k: int| 0 <= k < n ==> #[trigger] is_decimal(s[from + k])
}

/// `dddd-dd-dd` at `p`, `d` a decimal digit.
pub open spec fn date_at(s: Seq<char>, p: int) -> bool {
    &&& 0 <= p
    &&& p + 10 <= s.len()
    &&& digits_at(s, p, 4)
    &&& s[p + 4] == '-'
    &&& digits_at(s, p + 5, 2)
    &&& s[p + 7] == '-'
    &&& digits_at(s, p + 8, 2)
}

/// The whole of `s` is `dddd-dd-dd`.
pub open spec fn date_only(s: Seq<char>) -> bool {
    s.len() == 10 && date_at(s, 0)
}

/// A due-date marker `@dddd-dd-dd` at `p`.
pub open spec fn due_at(s: Seq<char>, p: int) -> bool {
    0 <= p < s.len() && s[p] == '@' && date_at(s, p + 1)
}

pub open spec fn first_due_from(s: Seq<char>, p: int) -> Option<int>
    decreases s.len() - p,
{
    if p < 0 || p >= s.len() {
        None
    } else if due_at(s, p) {
        Some(p)
    } else {
        first_due_from(s, p + 1)
    }
}

/// The date of the first due-date marker, or empty.
pub open spec fn due_of(rest: Seq<char>) -> Seq<char> {
    match first_due_from(rest, 0) {
        Some(p) => rest.subrange(p + 1, p + 11),
        None => seq![],
    }
}

/// `s` from `p` on with every due-date marker taken out, scanning left to right.
pub open spec fn strip_due_from(s: Seq<char>, p: int) -> Seq<char>
    decreases s.len() - p,
{
    if p < 0 || p >= s.len() {
        seq![]
    } else if due_at(s, p) {
        strip_due_from(s, p + 11)
    } else {
        seq![s[p]] + strip_due_from(s, p + 1)
    }
}

/// The first priority word that occurs at `q`.
pub open spec fn pri_word_at(s: Seq<char>, q: int) -> Option<Seq<char>> {
    if occurs_at(s, "高"@, q) {
        Some("高"@)
    } else if occurs_at(s, "中"@, q) {
        Some("中"@)
    } else if occurs_at(s, "低"@, q) {
        Some("低"@)
    } else if occurs_at(s, "high"@, q) {
        Some("high"@)
    } else if occurs_at(s, "normal"@, q) {
        Some("normal"@)
    } else if occurs_at(s, "low"@, q) {
        Some("low"@)
    } else {
        None
    }
}

/// A priority marker at `p`: `!`, whitespace, a priority word. Gives where
/// it ends and the word.
pub open spec fn pri_at(s: Seq<char>, p: int) -> Option<(int, Seq<char>)> {
    if 0 <= p < s.len() && s[p] == '!' {
        let q = ws_run(s, p + 1);
        match pri_word_at(s, q) {
            Some(w) => Some((q + w.len(), w)),
            None => None,
        }
    } else {
        None
    }
}

pub open spec fn first_pri_from(s: Seq<char>, p: int) -> Option<(int, Seq<char>)>
    decreases s.len() - p,
{
    if p < 0 || p >= s.len() {
        None
    } else if pri_at(s, p) is Some {
        pri_at(s, p)
    } else {
        first_pri_from(s, p + 1)
    }
}

/// `s` from `p` on with every priority marker taken out, scanning left to right.
pub open spec fn strip_pri_from(s: Seq<char>, p: int) -> Seq<char>
    decreases s.len() - p,
{
    if p < 0 || p >= s.len() {
        seq![]
    } else {
        match pri_at(s, p) {
            Some((e, _)) => {
                if e > p {
                    strip_pri_from(s, e)
                } else {
                    seq![]
                }
            },
            None => seq![s[p]] + strip_pri_from(s, p + 1),
        }
    }
}

/// The stored form of a priority word.
pub open spec fn normalize_priority_spec(s: Seq<char>) -> Seq<char> {
    let t = trim(s);
    if t == "高"@ || t == "high"@ {
        "high"@
    } else if t == "低"@ || t == "low"@ {
        "low"@
    } else {
        "normal"@
    }
}

/// The marker that writes a priority back; `normal` is the default and
/// writes none.
pub open spec fn priority_mark_spec(p: Seq<char>) -> Seq<char> {
    if p == "high"@ {
        "!高"@
    } else if p == "low"@ {
        "!低"@
    } else {
        seq![]
    }
}

/// The priority of a task line's rest: that of its first marker, or `normal`.
pub open spec fn priority_of(rest: Seq<char>) -> Seq<char> {
    match first_pri_from(rest, 0) {
        Some((_, w)) => normalize_priority_spec(w),
        None => "normal"@,
    }
}

/// The title: the rest with the markers taken out, trimmed, and with any
/// trailing `-`, `—`, `·` dropped.
pub open spec fn title_of(rest: Seq<char>) -> Seq<char> {
    trim(trim_end_chars(trim(strip_due_from(strip_pri_from(rest, 0), 0)), seq!['-', '—', '·']))
}

/// A line ends a task's note: it is blank, it is a task, or it is not
/// indented by two spaces or a tab.
pub open spec fn ends_note(l: Seq<char>) -> bool {
    trim(l).len() == 0 || task_line(l) is Some || !(is_prefix("  "@, l) || is_prefix(seq!['\t'], l))
}

/// The first line at or after `j` that ends the note.
pub open spec fn note_end(ls: Seq<Seq<char>>, j: int) -> int
    decreases ls.len() - j,
{
    if j < 0 || j >= ls.len() || ends_note(ls[j]) {
        j
    } else {
        note_end(ls, j + 1)
    }
}

pub proof fn lemma_note_end(ls: Seq<Seq<char>>, j: int)
    requires
        0 <= j <= ls.len(),
    ensures
        j <= note_end(ls, j) <= ls.len(),
        forall|k: int| j <= k < note_end(ls, j) ==> !ends_note(#[trigger] ls[k]),
        note_end(ls, j) < ls.len() ==> ends_note(ls[note_end(ls, j)]),
    decreases ls.len() - j,
{
    if j < ls.len() && !ends_note(ls[j]) {
        lemma_note_end(ls, j + 1);
    }
}

pub open spec fn trim_all(v: Seq<Seq<char>>) -> Seq<Seq<char>> {
    v.map_values(|l: Seq<char>| trim(l))
}

/// The task that a task line at `i` starts, its note ending at `j`.
pub open spec fn task_at(ls: Seq<Seq<char>>, i: int, j: int, done: bool, rest: Seq<char>) -> TaskSpec {
    TaskSpec {
        line: i as nat,
        raw: ls[i],
        span: (j - i) as nat,
        title: title_of(rest),
        due: due_of(rest),
        priority: priority_of(rest),
        note: join(trim_all(ls.subrange(i + 1, j)), " "@),
        done: done,
    }
}

/// The tasks among the lines from `i` on.
pub open spec fn parse_from(ls: Seq<Seq<char>>, i: int) -> Seq<TaskSpec>
    decreases ls.len() - i,
{
    if i < 0 || i >= ls.len() {
        seq![]
    } else {
        match task_line(ls[i]) {
            None => parse_from(ls, i + 1),
            Some((done, rest)) => {
                let j = note_end(ls, i + 1);
                proof {
                    lemma_note_end(ls, i + 1);
                }
                seq![task_at(ls, i, j, done, rest)] + parse_from(ls, j)
            },
        }
    }
}

/// The tasks of a list file.
pub open spec fn parse_spec(raw: Seq<char>) -> Seq<TaskSpec> {
    parse_from(lines(raw), 0)
}


// ───────────────────────── the grammar, executed ─────────────────────────

fn ws_run_exec(s: &[char], from: usize) -> (r: usize)
    requires
        from <= s@.len(),
    ensures
        r as int == ws_run(s@, from as int),
        from <= r <= s.len(),
{
    proof {
        lemma_ws_run(s@, from as int);
    }
    let mut i = from;
    while i < s.len() && is_ws_char(s[i])
        invariant
            from <= i <= s.len(),
            ws_run(s@, from as int) == ws_run(s@, i as int),
        decreases s.len() - i,
    {
        i += 1;
    }
    i
}

/// `task_line`, executed: whether the line is done and its rest.
fn task_line_exec(l: &[char]) -> (r: Option<(bool, Vec<char>)>)
    ensures
        match r {
            Some((d, rest)) => task_line(l@) == Some((d, rest@)),
            None => task_line(l@) is None,
        },
{
    let i = ws_run_exec(l, 0);
    if i < l.len() && (l[i] == '-' || l[i] == '*' || l[i] == '+') {
        let j = ws_run_exec(l, i + 1);
        if j > i + 1 && l.len() - j > 2 && l[j] == '[' && (l[j + 1] == ' ' || l[j + 1] == 'x' || l[j
            + 1] == 'X') && l[j + 2] == ']' {
            let k = ws_run_exec(l, j + 3);
            let rest = slice_chars(l, k, l.len());
            assert(rest@ =~= l@.skip(k as int));
            Some((l[j + 1] != ' ', rest))
        } else {
            None
        }
    } else {
        None
    }
}

fn digits_at_exec(s: &[char], from: usize, n: usize) -> (r: bool)
    requires
        from + n <= s.len(),
    ensures
        r == digits_at(s@, from as int, n as int),
{
    let mut k: usize = 0;
    while k < n
        invariant
            0 <= k <= n,
            from + n <= s.len(),
            forall|m: int| 0 <= m < k ==> #[trigger] is_decimal(s@[from + m]),
        decreases n - k,
    {
        if !is_digit_char(s[from + k]) {
            assert(!is_decimal(s@[from + k]));
            return false;
        }
        k += 1;
    }
    true
}

fn date_at_exec(s: &[char], p: usize) -> (r: bool)
    ensures
        r == date_at(s@, p as int),
{
    if p > s.len() || s.len() - p < 10 {
        return false;
    }
    digits_at_exec(s, p, 4) && s[p + 4] == '-' && digits_at_exec(s, p + 5, 2) && s[p + 7] == '-'
        && digits_at_exec(s, p + 8, 2)
}

fn due_at_exec(s: &[char], p: usize) -> (r: bool)
    ensures
        r == due_at(s@, p as int),
{
    p < s.len() && s[p] == '@' && date_at_exec(s, p + 1)
}

/// `due_of`, executed.
fn due_of_exec(rest: &[char]) -> (r: Vec<char>)
    ensures
        r@ == due_of(rest@),
{
    let mut p: usize = 0;
    while p < rest.len()
        invariant
            0 <= p <= rest@.len(),
            first_due_from(rest@, 0) == first_due_from(rest@, p as int),
        decreases rest.len() - p,
    {
        if due_at_exec(rest, p) {
            let d = slice_chars(rest, p + 1, p + 11);
            return d;
        }
        p += 1;
    }
    Vec::new()
}

/// `strip_due_from(s, 0)`, executed.
fn strip_due_exec(s: &[char]) -> (r: Vec<char>)
    ensures
        r@ == strip_due_from(s@, 0),
{
    let mut out: Vec<char> = Vec::new();
    let mut p: usize = 0;
    while p < s.len()
        invariant
            0 <= p <= s@.len(),
            strip_due_from(s@, 0) == out@ + strip_due_from(s@, p as int),
        decreases s.len() - p,
    {
        if due_at_exec(s, p) {
            p += 11;
        } else {
            let ghost before = out@;
            out.push(s[p]);
            assert(before + strip_due_from(s@, p as int) =~= out@ + strip_due_from(s@, p + 1));
            p += 1;
        }
    }
    assert(out@ + strip_due_from(s@, p as int) =~= out@);
    out
}

/// `pri_word_at`, executed: the word's characters.
fn pri_word_at_exec(s: &[char], q: usize) -> (r: Option<Vec<char>>)
    ensures
        match r {
            Some(w) => pri_word_at(s@, q as int) == Some(w@),
            None => pri_word_at(s@, q as int) is None,
        },
{
    let w1 = chars_of("高");
    if occurs_at_exec(s, &w1, q) {
        return Some(w1);
    }
    let w2 = chars_of("中");
    if occurs_at_exec(s, &w2, q) {
        return Some(w2);
    }
    let w3 = chars_of("低");
    if occurs_at_exec(s, &w3, q) {
        return Some(w3);
    }
    let w4 = chars_of("high");
    if occurs_at_exec(s, &w4, q) {
        return Some(w4);
    }
    let w5 = chars_of("normal");
    if occurs_at_exec(s, &w5, q) {
        return Some(w5);
    }
    let w6 = chars_of("low");
    if occurs_at_exec(s, &w6, q) {
        return Some(w6);
    }
    None
}

/// `pri_at`, executed.
fn pri_at_exec(s: &[char], p: usize) -> (r: Option<(usize, Vec<char>)>)
    ensures
        match r {
            Some((e, w)) => pri_at(s@, p as int) == Some((e as int, w@)),
            None => pri_at(s@, p as int) is None,
        },
{
    if p < s.len() && s[p] == '!' {
        let q = ws_run_exec(s, p + 1);
        match pri_word_at_exec(s, q) {
            Some(w) => {
                if w.len() <= s.len() - q {
                    Some((q + w.len(), w))
                } else {
                    // a word occurs only where it fits
                    assert(false);
                    None
                }
            },
            None => None,
        }
    } else {
        None
    }
}

/// `priority_of`, executed.
fn priority_of_exec(rest: &[char]) -> (r: Vec<char>)
    ensures
        r@ == priority_of(rest@),
{
    let mut p: usize = 0;
    while p < rest.len()
        invariant
            0 <= p <= rest@.len(),
            first_pri_from(rest@, 0) == first_pri_from(rest@, p as int),
        decreases rest.len() - p,
    {
        match pri_at_exec(rest, p) {
            Some((_, w)) => {
                let ws = string_of(&w);
                return chars_of(normalize_priority(ws.as_str()));
            },
            None => {},
        }
        p += 1;
    }
    chars_of("normal")
}

/// `strip_pri_from(s, 0)`, executed.
fn strip_pri_exec(s: &[char]) -> (r: Vec<char>)
    ensures
        r@ == strip_pri_from(s@, 0),
{
    let mut out: Vec<char> = Vec::new();
    let mut p: usize = 0;
    while p < s.len()
        invariant
            0 <= p <= s@.len(),
            strip_pri_from(s@, 0) == out@ + strip_pri_from(s@, p as int),
        decreases s.len() - p,
    {
        match pri_at_exec(s, p) {
            Some((e, _)) => {
                if e > p {
                    p = e;
                } else {
                    assert(out@ + strip_pri_from(s@, p as int) =~= out@);
                    return out;
                }
            },
            None => {
                let ghost before = out@;
                out.push(s[p]);
                assert(before + strip_pri_from(s@, p as int) =~= out@ + strip_pri_from(s@, p + 1));
                p += 1;
            },
        }
    }
    assert(out@ + strip_pri_from(s@, p as int) =~= out@);
    out
}

/// `title_of`, executed.
fn title_of_exec(rest: &[char]) -> (r: Vec<char>)
    ensures
        r@ == title_of(rest@),
{
    let a = strip_pri_exec(rest);
    let b = strip_due_exec(&a);
    let c = trim_exec(&b);
    let marks = vec!['-', '—', '·'];
    assert(marks@ =~= seq!['-', '—', '·']);
    let d = trim_end_chars_exec(&c, &marks);
    trim_exec(&d)
}

// ───────────────────────── small normalisations ─────────────────────────

/// The stored form of a priority: `高`/`high` → `high`, `低`/`low` → `low`,
/// anything else → `normal`.
pub fn normalize_priority(s: &str) -> (r: &'static str)
    ensures
        r@ == normalize_priority_spec(s@),
{
    let t = trim_exec(&chars_of(s));
    if chars_eq(&t, &chars_of("高")) || chars_eq(&t, &chars_of("high")) {
        "high"
    } else if chars_eq(&t, &chars_of("低")) || chars_eq(&t, &chars_of("low")) {
        "low"
    } else {
        "normal"
    }
}

/// The marker a priority is written back with; `normal` is the default and
/// has none, so that no task carries a `!中` of noise.
pub fn priority_mark(p: &str) -> (r: &'static str)
    ensures
        r@ == priority_mark_spec(p@),
{
    let c = chars_of(p);
    if chars_eq(&c, &chars_of("high")) {
        "!高"
    } else if chars_eq(&c, &chars_of("low")) {
        "!低"
    } else {
        proof {
            reveal_strlit("");
        }
        assert(""@ =~= Seq::<char>::empty());
        ""
    }
}

/// A due date as stored: the trimmed text when it is `dddd-dd-dd`, else empty.
pub open spec fn norm_due_spec(d: Option<Seq<char>>) -> Seq<char> {
    let s = trim(
        match d {
            Some(x) => x,
            None => seq![],
        },
    );
    if date_only(s) {
        s
    } else {
        seq![]
    }
}

pub fn norm_due(d: Option<String>) -> (r: String)
    ensures
        r@ == norm_due_spec(
            match d {
                Some(x) => Some(x@),
                None => None,
            },
        ),
{
    let raw = match &d {
        Some(x) => chars_of(x.as_str()),
        None => Vec::new(),
    };
    let s = trim_exec(&raw);
    if s.len() == 10 && date_at_exec(&s, 0) {
        string_of(&s)
    } else {
        String::new()
    }
}

/// A task title as stored: whitespace runs (line breaks and tabs among them)
/// become single spaces, the ends are trimmed, at most 200 characters.
pub open spec fn clean_title_spec(s: Seq<char>) -> Seq<char> {
    let j = join(words(s), " "@);
    j.take(if j.len() < 200 { j.len() as int } else { 200 })
}

pub fn clean_title(s: &str) -> (r: String)
    ensures
        r@ == clean_title_spec(s@),
{
    let w = words_exec(&chars_of(s));
    let j = join_exec(&w, &chars_of(" "));
    let n = if j.len() < 200 { j.len() } else { 200 };
    let t = slice_chars(&j, 0, n);
    assert(t@ =~= j@.take(n as int));
    string_of(&t)
}


// ───────────────────────── parsing ─────────────────────────

fn ends_note_exec(l: &[char]) -> (r: bool)
    ensures
        r == ends_note(l@),
{
    let t = trim_exec(l);
    if t.len() == 0 {
        return true;
    }
    if task_line_exec(l).is_some() {
        return true;
    }
    let two = chars_of("  ");
    let tab = vec!['\t'];
    assert(tab@ =~= seq!['\t']);
    !(starts_with(l, &two) || starts_with(l, &tab))
}

pub proof fn lemma_parse_from_bounds(ls: Seq<Seq<char>>, i: int)
    requires
        0 <= i,
    ensures
        forall|k: int|
            0 <= k < parse_from(ls, i).len() ==> {
                let t = #[trigger] parse_from(ls, i)[k];
                &&& i <= t.line
                &&& t.span >= 1
                &&& t.line + t.span <= ls.len()
                &&& t.raw == ls[t.line as int]
            },
        forall|a: int, b: int|
            0 <= a < b < parse_from(ls, i).len() ==> #[trigger] parse_from(ls, i)[a].line
                < #[trigger] parse_from(ls, i)[b].line,
    decreases ls.len() - i,
{
    if i >= ls.len() {
    } else {
        match task_line(ls[i]) {
            None => {
                lemma_parse_from_bounds(ls, i + 1);
                assert(parse_from(ls, i) == parse_from(ls, i + 1));
            },
            Some((done, rest)) => {
                let j = note_end(ls, i + 1);
                lemma_note_end(ls, i + 1);
                lemma_parse_from_bounds(ls, j);
                let p = parse_from(ls, i);
                let q = parse_from(ls, j);
                assert(p == seq![task_at(ls, i, j, done, rest)] + q);
                assert forall|k: int| 0 <= k < p.len() implies {
                    let t = #[trigger] p[k];
                    &&& i <= t.line
                    &&& t.span >= 1
                    &&& t.line + t.span <= ls.len()
                    &&& t.raw == ls[t.line as int]
                } by {
                    if k > 0 {
                        assert(p[k] == q[k - 1]);
                    }
                }
                assert forall|a: int, b: int| 0 <= a < b < p.len() implies #[trigger] p[a].line
                    < #[trigger] p[b].line by {
                    assert(p[b] == q[b - 1]);
                    if a > 0 {
                        assert(p[a] == q[a - 1]);
                    } else {
                        assert(p[a] == task_at(ls, i, j, done, rest));
                    }
                }
            },
        }
    }
}

/// The tasks of a list file, in order.
pub fn parse_tasks(raw: &str) -> (r: Vec<Task>)
    ensures
        tasks_view(r@) == parse_spec(raw@),
{
    let ls = lines_exec(&chars_of(raw));
    let ghost gl = lines(raw@);
    assert(keys_of(ls@) =~= gl);
    let mut out: Vec<Task> = Vec::new();
    let mut i: usize = 0;
    assert(tasks_view(out@) + parse_from(gl, 0) =~= parse_from(gl, 0));
    while i < ls.len()
        invariant
            0 <= i <= ls@.len(),
            keys_of(ls@) == gl,
            parse_spec(raw@) == tasks_view(out@) + parse_from(gl, i as int),
        decreases ls.len() - i,
    {
        assert(ls@[i as int]@ == gl[i as int]);
        match task_line_exec(&ls[i]) {
            None => {
                i += 1;
            },
            Some((done, rest)) => {
                let mut j = i + 1;
                proof {
                    lemma_note_end(gl, i + 1);
                }
                while j < ls.len() && !ends_note_exec(&ls[j])
                    invariant
                        i < j <= ls@.len(),
                        keys_of(ls@) == gl,
                        note_end(gl, i + 1) == note_end(gl, j as int),
                    decreases ls.len() - j,
                {
                    assert(ls@[j as int]@ == gl[j as int]);
                    j += 1;
                }
                proof {
                    if j < ls.len() {
                        assert(ls@[j as int]@ == gl[j as int]);
                    }
                }
                let mut notes: Vec<Vec<char>> = Vec::new();
                let mut k = i + 1;
                while k < j
                    invariant
                        i < k <= j <= ls@.len(),
                        keys_of(ls@) == gl,
                        keys_of(notes@) == trim_all(gl.subrange(i + 1, k as int)),
                    decreases j - k,
                {
                    let ghost before = keys_of(notes@);
                    notes.push(trim_exec(&ls[k]));
                    assert(ls@[k as int]@ == gl[k as int]);
                    assert(keys_of(notes@) =~= before.push(trim(gl[k as int])));
                    assert(trim_all(gl.subrange(i + 1, k + 1)) =~= trim_all(gl.subrange(i + 1, k as int)).push(trim(gl[k as int])));
                    k += 1;
                }
                let note = join_exec(&notes, &chars_of(" "));
                assert(keys_of(notes@) == notes@.map_values(|p: Vec<char>| p@));
                let t = Task {
                    line: i,
                    raw: string_of(&ls[i]),
                    span: j - i,
                    title: string_of(&title_of_exec(&rest)),
                    due: string_of(&due_of_exec(&rest)),
                    priority: string_of(&priority_of_exec(&rest)),
                    note: string_of(&note),
                    done,
                };
                let ghost before = tasks_view(out@);
                out.push(t);
                proof {
                    assert(tasks_view(out@) =~= before.push(task_at(gl, i as int, j as int, done, rest@)));
                    assert(before + parse_from(gl, i as int) =~= tasks_view(out@) + parse_from(gl, j as int));
                }
                i = j;
            },
        }
    }
    assert(tasks_view(out@) + parse_from(gl, i as int) =~= tasks_view(out@));
    out
}

// ───────────────────────── writing back ─────────────────────────

/// `s` without its carriage returns.
pub open spec fn remove_cr(s: Seq<char>) -> Seq<char> {
    s.filter(|c: char| c != '\r')
}

/// The note's lines as written back: each trimmed, blank ones dropped,
/// indented by two spaces.
pub open spec fn note_lines_from(ls: Seq<Seq<char>>) -> Seq<Seq<char>>
    decreases ls.len(),
{
    if ls.len() == 0 {
        seq![]
    } else {
        let rest = note_lines_from(ls.drop_last());
        let t = trim(ls.last());
        if t.len() > 0 {
            rest.push("  "@ + t)
        } else {
            rest
        }
    }
}

pub open spec fn note_lines(note: Seq<char>) -> Seq<Seq<char>> {
    note_lines_from(lines(remove_cr(note)))
}

/// The words of a task line after the checkbox: title, `@date`, priority mark.
pub open spec fn line_parts(t: TaskSpec) -> Seq<Seq<char>> {
    seq![trim(t.title)] + (if trim(t.due).len() > 0 {
        seq!["@"@ + trim(t.due)]
    } else {
        seq![]
    }) + (if priority_mark_spec(t.priority).len() > 0 {
        seq![priority_mark_spec(t.priority)]
    } else {
        seq![]
    })
}

/// A task written back: its line (`- [ ] title @date !mark`, markers in a
/// fixed order) and its note lines.
pub open spec fn render_spec(t: TaskSpec) -> Seq<Seq<char>> {
    seq!["- ["@ + (if t.done { "x"@ } else { " "@ }) + "] "@ + join(line_parts(t), " "@)]
        + note_lines(t.note)
}

fn remove_cr_exec(s: &[char]) -> (r: Vec<char>)
    ensures
        r@ == remove_cr(s@),
{
    let mut r: Vec<char> = Vec::new();
    let mut i: usize = 0;
    while i < s.len()
        invariant
            0 <= i <= s@.len(),
            r@ == remove_cr(s@.take(i as int)),
        decreases s.len() - i,
    {
        proof {
            assert(s@.take(i + 1).drop_last() =~= s@.take(i as int));
            reveal(Seq::filter);
        }
        if s[i] != '\r' {
            r.push(s[i]);
        }
        i += 1;
    }
    assert(s@.take(s@.len() as int) =~= s@);
    r
}

pub open spec fn strings_view(v: Seq<String>) -> Seq<Seq<char>> {
    v.map_values(|s: String| s@)
}

/// The lines a task is written back as.
pub fn render_task(t: &Task) -> (r: Vec<String>)
    ensures
        strings_view(r@) == render_spec(t@),
{
    let mut parts: Vec<Vec<char>> = Vec::new();
    parts.push(trim_exec(&chars_of(t.title.as_str())));
    let due = trim_exec(&chars_of(t.due.as_str()));
    if due.len() > 0 {
        parts.push(concat(&chars_of("@"), &due));
    }
    let pm = chars_of(priority_mark(t.priority.as_str()));
    if pm.len() > 0 {
        parts.push(pm);
    }
    assert(keys_of(parts@) =~= line_parts(t@));
    let mut first = chars_of("- [");
    push_all(&mut first, &chars_of(if t.done { "x" } else { " " }));
    push_all(&mut first, &chars_of("] "));
    push_all(&mut first, &join_exec(&parts, &chars_of(" ")));
    let mut out: Vec<String> = Vec::new();
    out.push(string_of(&first));
    let ls = lines_exec(&remove_cr_exec(&chars_of(t.note.as_str())));
    let ghost gl = lines(remove_cr(t.note@));
    let mut i: usize = 0;
    assert(gl.take(0) =~= Seq::<Seq<char>>::empty());
    while i < ls.len()
        invariant
            0 <= i <= ls@.len(),
            ls@.len() == gl.len(),
            forall|k: int| 0 <= k < ls@.len() ==> #[trigger] ls@[k]@ == gl[k],
            strings_view(out@) == seq![first@] + note_lines_from(gl.take(i as int)),
        decreases ls.len() - i,
    {
        let tl = trim_exec(&ls[i]);
        proof {
            assert(gl.take(i + 1).drop_last() =~= gl.take(i as int));
        }
        if tl.len() > 0 {
            let ghost before = strings_view(out@);
            out.push(string_of(&concat(&chars_of("  "), &tl)));
            assert(strings_view(out@) =~= before.push("  "@ + tl@));
        }
        i += 1;
    }
    assert(gl.take(gl.len() as int) =~= gl);
    out
}


// ───────────────────────── finding a task again ─────────────────────────

pub open spec fn dist(i: int, h: int) -> int {
    if i >= h {
        i - h
    } else {
        h - i
    }
}

/// `i` is the line equal to `raw` nearest to `hint`, the first one on a tie.
pub open spec fn best_hit(ls: Seq<Seq<char>>, raw: Seq<char>, hint: int, i: int) -> bool {
    &&& 0 <= i < ls.len()
    &&& ls[i] == raw
    &&& forall|j: int|
        0 <= j < ls.len() && #[trigger] ls[j] == raw ==> dist(i, hint) < dist(j, hint) || (dist(
            i,
            hint,
        ) == dist(j, hint) && i <= j)
}

/// Where the task whose line read `raw` is now: line `hint` if it still
/// reads so; else the line that reads so nearest to `hint` (lines shift
/// when others are inserted above); `None` when no line reads so any more.
pub open spec fn locate_spec(ls: Seq<Seq<char>>, raw: Seq<char>, hint: int) -> Option<int> {
    if 0 <= hint < ls.len() && ls[hint] == raw {
        Some(hint)
    } else if exists|i: int| best_hit(ls, raw, hint, i) {
        Some(choose|i: int| best_hit(ls, raw, hint, i))
    } else {
        None
    }
}

pub proof fn lemma_best_hit_unique(ls: Seq<Seq<char>>, raw: Seq<char>, hint: int, a: int, b: int)
    requires
        best_hit(ls, raw, hint, a),
        best_hit(ls, raw, hint, b),
    ensures
        a == b,
{
    assert(ls[b] == raw);
    assert(ls[a] == raw);
}

fn locate_chars(ls: &Vec<Vec<char>>, raw: &[char], hint: usize) -> (r: Option<usize>)
    ensures
        match r {
            Some(i) => locate_spec(keys_of(ls@), raw@, hint as int) == Some(i as int),
            None => locate_spec(keys_of(ls@), raw@, hint as int) is None,
        },
{
    let ghost g = keys_of(ls@);
    if hint < ls.len() && chars_eq(&ls[hint], raw) {
        assert(g[hint as int] == raw@);
        return Some(hint);
    }
    let mut best: Option<usize> = None;
    let mut i: usize = 0;
    while i < ls.len()
        invariant
            0 <= i <= ls@.len(),
            g == keys_of(ls@),
            match best {
                Some(b) => 0 <= b < i && g[b as int] == raw@ && forall|j: int|
                    0 <= j < i && #[trigger] g[j] == raw@ ==> dist(b as int, hint as int) < dist(
                        j,
                        hint as int,
                    ) || (dist(b as int, hint as int) == dist(j, hint as int) && b <= j),
                None => forall|j: int| 0 <= j < i ==> #[trigger] g[j] != raw@,
            },
        decreases ls.len() - i,
    {
        assert(g[i as int] == ls@[i as int]@);
        if chars_eq(&ls[i], raw) {
            let di = if i >= hint { i - hint } else { hint - i };
            match best {
                Some(b) => {
                    let db = if b >= hint { b - hint } else { hint - b };
                    if di < db {
                        best = Some(i);
                    }
                },
                None => {
                    best = Some(i);
                },
            }
        }
        i += 1;
    }
    match best {
        Some(b) => {
            proof {
                assert(best_hit(g, raw@, hint as int, b as int));
                let c = choose|c: int| best_hit(g, raw@, hint as int, c);
                lemma_best_hit_unique(g, raw@, hint as int, b as int, c);
            }
            Some(b)
        },
        None => None,
    }
}

/// Finds the task whose line read `raw` when it was parsed, near line
/// `hint`; an error when no line reads so any more.
pub fn locate(lines: &[String], raw: &str, hint: usize) -> (r: Result<usize, String>)
    ensures
        match r {
            Ok(i) => locate_spec(strings_view(lines@), raw@, hint as int) == Some(i as int),
            Err(e) => locate_spec(strings_view(lines@), raw@, hint as int) is None && e@
                == "这条任务已经被改过或删掉了，刷新一下再看看"@,
        },
{
    let mut ls: Vec<Vec<char>> = Vec::new();
    let mut i: usize = 0;
    while i < lines.len()
        invariant
            0 <= i <= lines@.len(),
            keys_of(ls@) == strings_view(lines@.take(i as int)),
        decreases lines.len() - i,
    {
        let ghost before = keys_of(ls@);
        ls.push(chars_of(lines[i].as_str()));
        assert(keys_of(ls@) =~= before.push(lines@[i as int]@));
        assert(strings_view(lines@.take(i + 1)) =~= strings_view(lines@.take(i as int)).push(lines@[i as int]@));
        i += 1;
    }
    assert(lines@.take(lines@.len() as int) =~= lines@);
    match locate_chars(&ls, &chars_of(raw), hint) {
        Some(i) => Ok(i),
        None => Err(string_of(&chars_of("这条任务已经被改过或删掉了，刷新一下再看看"))),
    }
}


// ───────────────────────── edits ─────────────────────────

/// What the list file reads as: its text, or `HEADER` when it is missing
/// or blank. Nothing is written until an edit needs it.
pub open spec fn file_text_spec(file: Option<Seq<char>>) -> Seq<char> {
    match file {
        Some(s) => if trim(s).len() > 0 {
            s
        } else {
            HEADER@
        },
        None => HEADER@,
    }
}

pub fn task_file_text(file: Option<String>) -> (r: String)
    ensures
        r@ == file_text_spec(
            match file {
                Some(s) => Some(s@),
                None => None,
            },
        ),
{
    match file {
        Some(s) => {
            if trim_exec(&chars_of(s.as_str())).len() > 0 {
                s
            } else {
                HEADER.to_owned()
            }
        },
        None => HEADER.to_owned(),
    }
}

/// Each line followed by a line break.
pub open spec fn with_breaks(ls: Seq<Seq<char>>) -> Seq<char>
    decreases ls.len(),
{
    if ls.len() == 0 {
        seq![]
    } else {
        with_breaks(ls.drop_last()) + ls.last() + "\n"@
    }
}

/// A new task from the fields the user gave.
pub open spec fn new_task(
    title: Seq<char>,
    due: Option<Seq<char>>,
    priority: Option<Seq<char>>,
    note: Option<Seq<char>>,
) -> TaskSpec {
    TaskSpec {
        line: 0,
        raw: seq![],
        span: 0,
        title: clean_title_spec(title),
        due: norm_due_spec(due),
        priority: match priority {
            Some(p) => normalize_priority_spec(p),
            None => "normal"@,
        },
        note: trim(
            match note {
                Some(n) => n,
                None => seq![],
            },
        ),
        done: false,
    }
}

/// Adding a task appends it at the end of the file (never in between,
/// which would shift every line below it); a title that cleans to nothing
/// is refused.
pub open spec fn add_spec(
    content: Seq<char>,
    title: Seq<char>,
    due: Option<Seq<char>>,
    priority: Option<Seq<char>>,
    note: Option<Seq<char>>,
) -> Result<Seq<char>, Seq<char>> {
    if clean_title_spec(title).len() == 0 {
        Err("任务标题不能为空"@)
    } else {
        let base = if is_suffix("\n"@, content) {
            content
        } else {
            content + "\n"@
        };
        Ok(base + with_breaks(render_spec(new_task(title, due, priority, note))))
    }
}

pub open spec fn opt_view(o: Option<String>) -> Option<Seq<char>> {
    match o {
        Some(s) => Some(s@),
        None => None,
    }
}

fn push_with_breaks(out: &mut Vec<char>, ls: &Vec<String>)
    ensures
        final(out)@ == old(out)@ + with_breaks(strings_view(ls@)),
{
    let ghost start = out@;
    let mut i: usize = 0;
    while i < ls.len()
        invariant
            0 <= i <= ls@.len(),
            out@ == start + with_breaks(strings_view(ls@.take(i as int))),
        decreases ls.len() - i,
    {
        push_all(out, &chars_of(ls[i].as_str()));
        push_all(out, &chars_of("\n"));
        proof {
            let a = strings_view(ls@.take(i + 1));
            assert(a.drop_last() =~= strings_view(ls@.take(i as int)));
            assert(a.last() == ls@[i as int]@);
        }
        i += 1;
    }
    assert(ls@.take(ls@.len() as int) =~= ls@);
}

/// The list file with a new task appended.
pub fn add_task_to(
    content: &str,
    title: &str,
    due: Option<String>,
    priority: Option<String>,
    note: Option<String>,
) -> (r: Result<String, String>)
    ensures
        match r {
            Ok(v) => add_spec(content@, title@, opt_view(due), opt_view(priority), opt_view(note))
                == Ok::<Seq<char>, Seq<char>>(v@),
            Err(e) => add_spec(content@, title@, opt_view(due), opt_view(priority), opt_view(note))
                == Err::<Seq<char>, Seq<char>>(e@),
        },
{
    let clean = clean_title(title);
    if clean.as_str().is_empty() {
        return Err(string_of(&chars_of("任务标题不能为空")));
    }
    let mut out = chars_of(content);
    if !ends_with(&out, &chars_of("\n")) {
        push_all(&mut out, &chars_of("\n"));
    }
    let pr = match &priority {
        Some(p) => normalize_priority(p.as_str()).to_owned(),
        None => "normal".to_owned(),
    };
    let nt = match &note {
        Some(n) => string_of(&trim_exec(&chars_of(n.as_str()))),
        None => String::new(),
    };
    let t = Task {
        line: 0,
        raw: String::new(),
        span: 0,
        title: clean,
        due: norm_due(due),
        priority: pr,
        note: nt,
        done: false,
    };
    proof {
        assert(trim(Seq::<char>::empty()) =~= Seq::<char>::empty());
    }
    assert(t@.title == new_task(title@, opt_view(due), opt_view(priority), opt_view(note)).title);
    assert(render_spec(t@) == render_spec(new_task(title@, opt_view(due), opt_view(priority), opt_view(note))));
    let ls = render_task(&t);
    push_with_breaks(&mut out, &ls);
    Ok(string_of(&out))
}

/// The first task of `ts` on line `idx`.
pub open spec fn find_line(ts: Seq<TaskSpec>, idx: int) -> Option<TaskSpec>
    decreases ts.len(),
{
    if ts.len() == 0 {
        None
    } else if ts[0].line == idx {
        Some(ts[0])
    } else {
        find_line(ts.drop_first(), idx)
    }
}

/// A task with the given fields changed and the others kept; a title that
/// cleans to nothing keeps the old one.
pub open spec fn updated(
    cur: TaskSpec,
    title: Option<Seq<char>>,
    due: Option<Seq<char>>,
    priority: Option<Seq<char>>,
    note: Option<Seq<char>>,
    done: Option<bool>,
) -> TaskSpec {
    TaskSpec {
        line: 0,
        raw: seq![],
        span: 0,
        title: match title {
            Some(v) => if clean_title_spec(v).len() > 0 {
                clean_title_spec(v)
            } else {
                cur.title
            },
            None => cur.title,
        },
        due: match due {
            Some(v) => norm_due_spec(Some(v)),
            None => cur.due,
        },
        priority: match priority {
            Some(v) => normalize_priority_spec(v),
            None => cur.priority,
        },
        note: match note {
            Some(v) => trim(v),
            None => cur.note,
        },
        done: match done {
            Some(v) => v,
            None => cur.done,
        },
    }
}

/// The lines joined again, with a final line break when the file had one.
pub open spec fn rejoin(content: Seq<char>, ls: Seq<Seq<char>>) -> Seq<char> {
    let out = join(ls, "\n"@);
    if is_suffix("\n"@, content) && !is_suffix("\n"@, out) {
        out + "\n"@
    } else {
        out
    }
}

/// Updating replaces the lines of the one task found by `locate_spec` with
/// its new rendering and leaves every other line as it was.
pub open spec fn update_spec(
    content: Seq<char>,
    raw: Seq<char>,
    hint: int,
    title: Option<Seq<char>>,
    due: Option<Seq<char>>,
    priority: Option<Seq<char>>,
    note: Option<Seq<char>>,
    done: Option<bool>,
) -> Result<Seq<char>, Seq<char>> {
    let ls = lines(content);
    match locate_spec(ls, raw, hint) {
        None => Err("这条任务已经被改过或删掉了，刷新一下再看看"@),
        Some(idx) => match find_line(parse_spec(content), idx) {
            None => Err("这一行现在不是任务了，刷新一下再看看"@),
            Some(cur) => {
                let span = if cur.span >= 1 { cur.span as int } else { 1 };
                Ok(
                    rejoin(
                        content,
                        ls.take(idx) + render_spec(updated(cur, title, due, priority, note, done))
                            + ls.skip(idx + span),
                    ),
                )
            },
        },
    }
}

/// Deleting removes the lines of the one task found by `locate_spec`
/// (its line and its note lines) and leaves every other line as it was.
pub open spec fn delete_spec(content: Seq<char>, raw: Seq<char>, hint: int) -> Result<
    Seq<char>,
    Seq<char>,
> {
    let ls = lines(content);
    match locate_spec(ls, raw, hint) {
        None => Err("这条任务已经被改过或删掉了，刷新一下再看看"@),
        Some(idx) => {
            let span = match find_line(parse_spec(content), idx) {
                Some(t) => if t.span >= 1 {
                    t.span as int
                } else {
                    1
                },
                None => 1,
            };
            let end = if idx + span <= ls.len() {
                idx + span
            } else {
                ls.len() as int
            };
            Ok(rejoin(content, ls.take(idx) + ls.skip(end)))
        },
    }
}

pub proof fn lemma_find_line_in(ts: Seq<TaskSpec>, idx: int)
    ensures
        find_line(ts, idx) matches Some(t) ==> t.line == idx && exists|k: int|
            0 <= k < ts.len() && #[trigger] ts[k] == t,
    decreases ts.len(),
{
    if ts.len() > 0 && ts[0].line != idx {
        lemma_find_line_in(ts.drop_first(), idx);
        if let Some(t) = find_line(ts, idx) {
            let k = choose|k: int| 0 <= k < ts.drop_first().len() && #[trigger] ts.drop_first()[k] == t;
            assert(ts[k + 1] == t);
        }
    } else if ts.len() > 0 {
        assert(ts[0] == ts[0]);
    }
}

fn find_line_exec(ts: &Vec<Task>, idx: usize) -> (r: Option<&Task>)
    ensures
        match r {
            Some(t) => find_line(tasks_view(ts@), idx as int) == Some(t@),
            None => find_line(tasks_view(ts@), idx as int) is None,
        },
{
    let ghost tv = tasks_view(ts@);
    let mut i: usize = 0;
    assert(tv.skip(0) =~= tv);
    while i < ts.len()
        invariant
            0 <= i <= ts@.len(),
            tv == tasks_view(ts@),
            find_line(tv, idx as int) == find_line(tv.skip(i as int), idx as int),
        decreases ts.len() - i,
    {
        proof {
            assert(tv.skip(i as int)[0] == ts@[i as int]@);
            assert(tv.skip(i as int).drop_first() =~= tv.skip(i + 1));
        }
        if ts[i].line == idx {
            return Some(&ts[i]);
        }
        i += 1;
    }
    None
}

fn strings_to_chars(v: &Vec<String>) -> (r: Vec<Vec<char>>)
    ensures
        keys_of(r@) == strings_view(v@),
{
    let mut r: Vec<Vec<char>> = Vec::new();
    let mut i: usize = 0;
    while i < v.len()
        invariant
            0 <= i <= v@.len(),
            keys_of(r@) == strings_view(v@.take(i as int)),
        decreases v.len() - i,
    {
        let ghost before = keys_of(r@);
        r.push(chars_of(v[i].as_str()));
        assert(keys_of(r@) =~= before.push(v@[i as int]@));
        assert(strings_view(v@.take(i + 1)) =~= strings_view(v@.take(i as int)).push(v@[i as int]@));
        i += 1;
    }
    assert(v@.take(v@.len() as int) =~= v@);
    r
}

/// `ls[..a] + mid + ls[b..]`, joined again.
fn rejoin_exec(content: &[char], ls: &Vec<Vec<char>>, a: usize, mid: &Vec<Vec<char>>, b: usize) -> (r: String)
    requires
        a <= b <= ls@.len(),
    ensures
        r@ == rejoin(content@, keys_of(ls@).take(a as int) + keys_of(mid@) + keys_of(ls@).skip(b as int)),
{
    let mut all: Vec<Vec<char>> = Vec::new();
    let mut i: usize = 0;
    while i < a
        invariant
            0 <= i <= a <= ls@.len(),
            keys_of(all@) == keys_of(ls@).take(i as int),
        decreases a - i,
    {
        let ghost before = keys_of(all@);
        let x = slice_chars(&ls[i], 0, ls[i].len());
        assert(x@ =~= ls@[i as int]@);
        all.push(x);
        assert(keys_of(all@) =~= before.push(x@));
        assert(keys_of(all@) =~= keys_of(ls@).take(i + 1));
        i += 1;
    }
    let mut k: usize = 0;
    while k < mid.len()
        invariant
            0 <= k <= mid@.len(),
            keys_of(all@) == keys_of(ls@).take(a as int) + keys_of(mid@).take(k as int),
        decreases mid.len() - k,
    {
        let ghost before = keys_of(all@);
        let x = slice_chars(&mid[k], 0, mid[k].len());
        assert(x@ =~= mid@[k as int]@);
        all.push(x);
        assert(keys_of(all@) =~= before.push(x@));
        assert(keys_of(all@) =~= keys_of(ls@).take(a as int) + keys_of(mid@).take(k + 1));
        k += 1;
    }
    assert(keys_of(mid@).take(mid@.len() as int) =~= keys_of(mid@));
    let mut j: usize = b;
    while j < ls.len()
        invariant
            b <= j <= ls@.len(),
            keys_of(all@) == keys_of(ls@).take(a as int) + keys_of(mid@) + keys_of(ls@).subrange(
                b as int,
                j as int,
            ),
        decreases ls.len() - j,
    {
        let ghost before = keys_of(all@);
        let x = slice_chars(&ls[j], 0, ls[j].len());
        assert(x@ =~= ls@[j as int]@);
        all.push(x);
        assert(keys_of(all@) =~= before.push(x@));
        assert(keys_of(all@) =~= keys_of(ls@).take(a as int) + keys_of(mid@) + keys_of(ls@).subrange(
            b as int,
            j + 1,
        ));
        j += 1;
    }
    assert(keys_of(ls@).subrange(b as int, ls@.len() as int) =~= keys_of(ls@).skip(b as int));
    let mut out = join_exec(&all, &chars_of("\n"));
    assert(keys_of(all@) == all@.map_values(|p: Vec<char>| p@));
    if ends_with(content, &chars_of("\n")) && !ends_with(&out, &chars_of("\n")) {
        push_all(&mut out, &chars_of("\n"));
    }
    string_of(&out)
}

/// The list file with one task's fields changed.
pub fn update_task_in(
    content: &str,
    raw: &str,
    hint: usize,
    title: Option<String>,
    due: Option<String>,
    priority: Option<String>,
    note: Option<String>,
    done: Option<bool>,
) -> (r: Result<String, String>)
    ensures
        match r {
            Ok(v) => update_spec(
                content@,
                raw@,
                hint as int,
                opt_view(title),
                opt_view(due),
                opt_view(priority),
                opt_view(note),
                done,
            ) == Ok::<Seq<char>, Seq<char>>(v@),
            Err(e) => update_spec(
                content@,
                raw@,
                hint as int,
                opt_view(title),
                opt_view(due),
                opt_view(priority),
                opt_view(note),
                done,
            ) == Err::<Seq<char>, Seq<char>>(e@),
        },
{
    let text = chars_of(content);
    let ls = lines_exec(&text);
    let ghost gl = lines(content@);
    assert(keys_of(ls@) =~= gl);
    let idx = match locate_chars(&ls, &chars_of(raw), hint) {
        Some(i) => i,
        None => {
            return Err(string_of(&chars_of("这条任务已经被改过或删掉了，刷新一下再看看")));
        },
    };
    let ts = parse_tasks(content);
    let cur = match find_line_exec(&ts, idx) {
        Some(t) => t,
        None => {
            return Err(string_of(&chars_of("这一行现在不是任务了，刷新一下再看看")));
        },
    };
    proof {
        lemma_parse_from_bounds(gl, 0);
        lemma_find_line_in(tasks_view(ts@), idx as int);
        let k = choose|k: int| 0 <= k < tasks_view(ts@).len() && #[trigger] tasks_view(ts@)[k] == cur@;
        assert(parse_from(gl, 0)[k] == cur@);
        assert(cur.line + cur.span <= ls@.len());
    }
    let mut next = Task {
        line: 0,
        raw: String::new(),
        span: 0,
        title: cur.title.clone(),
        due: cur.due.clone(),
        priority: cur.priority.clone(),
        note: cur.note.clone(),
        done: cur.done,
    };
    if let Some(v) = title {
        let v = clean_title(v.as_str());
        if !v.as_str().is_empty() {
            next.title = v;
        }
    }
    if let Some(v) = due {
        next.due = norm_due(Some(v));
    }
    if let Some(v) = priority {
        next.priority = normalize_priority(v.as_str()).to_owned();
    }
    if let Some(v) = note {
        next.note = string_of(&trim_exec(&chars_of(v.as_str())));
    }
    if let Some(v) = done {
        next.done = v;
    }
    let span = if cur.span >= 1 { cur.span } else { 1 };
    let mid = strings_to_chars(&render_task(&next));
    Ok(rejoin_exec(&text, &ls, idx, &mid, idx + span))
}


/// The list file with one task (its line and its note lines) taken out.
pub fn delete_task_from(content: &str, raw: &str, hint: usize) -> (r: Result<String, String>)
    ensures
        match r {
            Ok(v) => delete_spec(content@, raw@, hint as int) == Ok::<Seq<char>, Seq<char>>(v@),
            Err(e) => delete_spec(content@, raw@, hint as int) == Err::<Seq<char>, Seq<char>>(e@),
        },
{
    let text = chars_of(content);
    let ls = lines_exec(&text);
    let ghost gl = lines(content@);
    assert(keys_of(ls@) =~= gl);
    let idx = match locate_chars(&ls, &chars_of(raw), hint) {
        Some(i) => i,
        None => {
            return Err(string_of(&chars_of("这条任务已经被改过或删掉了，刷新一下再看看")));
        },
    };
    let ts = parse_tasks(content);
    let span = match find_line_exec(&ts, idx) {
        Some(t) => if t.span >= 1 {
            t.span
        } else {
            1
        },
        None => 1,
    };
    proof {
        assert(0 <= idx < gl.len()) by {
            let g = keys_of(ls@);
            if !(0 <= hint < g.len() && g[hint as int] == raw@) {
                let c = choose|c: int| best_hit(g, raw@, hint as int, c);
            }
        }
    }
    let end = if span <= ls.len() - idx { idx + span } else { ls.len() };
    let mid: Vec<Vec<char>> = Vec::new();
    assert(keys_of(mid@) =~= Seq::<Seq<char>>::empty());
    let r = rejoin_exec(&text, &ls, idx, &mid, end);
    assert(keys_of(ls@).take(idx as int) + keys_of(mid@) + keys_of(ls@).skip(end as int) =~= gl.take(
        idx as int,
    ) + gl.skip(end as int));
    Ok(r)
}


/// Whether the whole of `s` is `dddd-dd-dd`.
pub fn date_only_exec(s: &[char]) -> (r: bool)
    ensures
        r == date_only(s@),
{
    s.len() == 10 && date_at_exec(s, 0)
}

} // verus!
