//! Check-ins: a table per month of what each habit held on each day.
//!
//! A day holds one of three states for a habit: `done`, `missed`, or
//! nothing (empty). A day that has not come yet is no state at all: the
//! month file never holds a row for it.
//!
//! The month file is a Markdown table, one row per day from the 1st on:
//! ```text
//! | 日期 | 跑步 | 读书 |
//! | --- | --- | --- |
//! | 2026-01-01 | done | missed |
//! ```

use vstd::prelude::*;
use crate::calendar::{
    day_number, day_of, day_parts, day_text, format_day, format_month, format_ymd, month_text, opt_num,
    parse_day, ymd_text,
};
use crate::note::{split_fm_spec, split_frontmatter};
use crate::strmap::{entry, StrMap};
use crate::text::{
    ascii_lower_exec, ascii_lower_seq, byte_len, byte_len_upto, byte_slice, byte_slice_exec, chars_eq, chars_lt, chars_of,
    concat, keys_view, lines, lines_exec, parse_i32, parse_int_spec, parse_u32, push_all, seq_lt,
    slice_chars, split_char, split_char_exec, split_once, split_once_exec, string_of, trim,
    trim_end_chars, trim_end_chars_exec, trim_exec, trim_start_chars, trim_start_chars_exec,
};

verus! {

/// Where the habits themselves are defined, inside the check-in folder.
pub const HABIT_FILE: &'static str = "_habits.md";

// ───────────────────────── the three states ─────────────────────────

/// The state that a cell's text stands for: the two states and the many
/// ways people write them, or nothing.
pub open spec fn state_of(s: Seq<char>) -> Seq<char> {
    let t = ascii_lower_seq(trim(s));
    if t == "done"@ || t == "x"@ || t == "[x]"@ || t == "1"@ || t == "true"@ || t == "✅"@ || t
        == "✓"@ {
        "done"@
    } else if t == "missed"@ || t == "-"@ || t == "[-]"@ || t == "0"@ || t == "false"@ || t
        == "❌"@ || t == "✗"@ {
        "missed"@
    } else {
        ""@
    }
}

/// The text a state is written with in the month file.
pub open spec fn mark_of(s: Seq<char>) -> Seq<char> {
    if s == "done"@ {
        "done"@
    } else if s == "missed"@ {
        "missed"@
    } else {
        ""@
    }
}

/// One click moves a cell on: nothing → done → missed → nothing.
pub open spec fn next_state_spec(s: Seq<char>) -> Seq<char> {
    if s == ""@ {
        "done"@
    } else if s == "done"@ {
        "missed"@
    } else {
        ""@
    }
}

fn is_word(t: &Vec<char>, w: &str) -> (r: bool)
    ensures
        r == (t@ == w@),
{
    chars_eq(t, &chars_of(w))
}

/// The state that a cell's text, given as characters, stands for.
fn state_chars(c: &[char]) -> (r: &'static str)
    ensures
        r@ == state_of(c@),
{
    let t = ascii_lower_exec(&trim_exec(c));
    if is_word(&t, "done") || is_word(&t, "x") || is_word(&t, "[x]") || is_word(&t, "1")
        || is_word(&t, "true") || is_word(&t, "✅") || is_word(&t, "✓") {
        "done"
    } else if is_word(&t, "missed") || is_word(&t, "-") || is_word(&t, "[-]") || is_word(&t, "0")
        || is_word(&t, "false") || is_word(&t, "❌") || is_word(&t, "✗") {
        "missed"
    } else {
        ""
    }
}

/// The state that a cell's text stands for.
pub fn normalize_state(s: &str) -> (r: String)
    ensures
        r@ == state_of(s@),
{
    state_chars(&chars_of(s)).to_owned()
}

/// The text a state is written with in the month file.
pub fn state_mark(s: &str) -> (r: &'static str)
    ensures
        r@ == mark_of(s@),
{
    let t = chars_of(s);
    if chars_eq(&t, &chars_of("done")) {
        "done"
    } else if chars_eq(&t, &chars_of("missed")) {
        "missed"
    } else {
        ""
    }
}

/// The state one click moves a cell to.
pub fn next_state(cur: &str) -> (r: &'static str)
    ensures
        r@ == next_state_spec(cur@),
{
    proof {
        reveal_strlit("");
    }
    let t = chars_of(cur);
    if t.len() == 0 {
        assert(t@ =~= ""@);
        "done"
    } else if chars_eq(&t, &chars_of("done")) {
        "missed"
    } else {
        ""
    }
}

// ───────────────────────── a month's table ─────────────────────────

/// A month's table: day → (habit → state), at most one row per day.
pub struct Matrix {
    rows: Vec<(Vec<char>, StrMap)>,
}

pub open spec fn row_at(rows: Seq<(Vec<char>, StrMap)>, d: Seq<char>, i: int) -> bool {
    0 <= i < rows.len() && rows[i].0@ == d
}

pub open spec fn dates_unique(rows: Seq<(Vec<char>, StrMap)>) -> bool {
    forall|i: int, j: int| 0 <= i < j < rows.len() ==> (#[trigger] rows[i]).0@ != (#[trigger] rows[j]).0@
}

pub open spec fn rows_map(rows: Seq<(Vec<char>, StrMap)>) -> Map<Seq<char>, Map<Seq<char>, Seq<char>>> {
    Map::new(
        |d: Seq<char>| exists|i: int| row_at(rows, d, i),
        |d: Seq<char>| rows[choose|i: int| row_at(rows, d, i)].1@,
    )
}

pub proof fn lemma_rows_map(rows: Seq<(Vec<char>, StrMap)>, i: int)
    requires
        dates_unique(rows),
        0 <= i < rows.len(),
    ensures
        rows_map(rows).dom().contains(rows[i].0@),
        rows_map(rows)[rows[i].0@] == rows[i].1@,
{
    let d = rows[i].0@;
    assert(row_at(rows, d, i));
    let j = choose|j: int| row_at(rows, d, j);
    if j != i {
        assert(rows[i].0@ == rows[j].0@);
    }
}

impl View for Matrix {
    type V = Map<Seq<char>, Map<Seq<char>, Seq<char>>>;

    closed spec fn view(&self) -> Map<Seq<char>, Map<Seq<char>, Seq<char>>> {
        rows_map(self.rows@)
    }
}

/// The row of `m` at `d`, as an option.
pub open spec fn row_entry(m: Map<Seq<char>, Map<Seq<char>, Seq<char>>>, d: Seq<char>) -> Option<
    Map<Seq<char>, Seq<char>>,
> {
    if m.dom().contains(d) {
        Some(m[d])
    } else {
        None
    }
}

/// The state the table holds for day `d` and habit `h` (nothing where it
/// holds none).
pub open spec fn cell(m: Map<Seq<char>, Map<Seq<char>, Seq<char>>>, d: Seq<char>, h: Seq<char>) -> Seq<
    char,
> {
    match row_entry(m, d) {
        Some(row) => match entry(row, h) {
            Some(v) => v,
            None => ""@,
        },
        None => ""@,
    }
}

impl Matrix {
    #[verifier::type_invariant]
    spec fn inv(self) -> bool {
        dates_unique(self.rows@)
    }

    pub fn new() -> (m: Matrix)
        ensures
            m@ == Map::<Seq<char>, Map<Seq<char>, Seq<char>>>::empty(),
    {
        let m = Matrix { rows: Vec::new() };
        assert(m@ =~= Map::<Seq<char>, Map<Seq<char>, Seq<char>>>::empty());
        m
    }

    fn position(&self, d: &[char]) -> (r: Option<usize>)
        ensures
            match r {
                Some(i) => i < self.rows@.len() && self.rows@[i as int].0@ == d@ && self@.dom().contains(
                    d@,
                ) && self@[d@] == self.rows@[i as int].1@,
                None => !self@.dom().contains(d@),
            },
    {
        proof {
            use_type_invariant(self);
        }
        let mut i: usize = 0;
        while i < self.rows.len()
            invariant
                0 <= i <= self.rows@.len(),
                dates_unique(self.rows@),
                forall|j: int| 0 <= j < i ==> (#[trigger] self.rows@[j]).0@ != d@,
            decreases self.rows.len() - i,
        {
            if chars_eq(&self.rows[i].0, d) {
                proof {
                    lemma_rows_map(self.rows@, i as int);
                }
                return Some(i);
            }
            i += 1;
        }
        None
    }

    /// The row for day `d`, if the table has one.
    pub fn find(&self, d: &[char]) -> (r: Option<&StrMap>)
        ensures
            match r {
                Some(row) => row_entry(self@, d@) == Some(row@),
                None => row_entry(self@, d@) is None,
            },
    {
        match self.position(d) {
            Some(i) => Some(&self.rows[i].1),
            None => None,
        }
    }

    /// The row for day `d`, if the table has one.
    pub fn get(&self, d: &str) -> (r: Option<&StrMap>)
        ensures
            match r {
                Some(row) => row_entry(self@, d@) == Some(row@),
                None => row_entry(self@, d@) is None,
            },
    {
        self.find(&chars_of(d))
    }

    /// Sets the row for day `d`.
    pub fn put(&mut self, d: &[char], row: StrMap)
        ensures
            final(self)@ == old(self)@.insert(d@, row@),
    {
        proof {
            use_type_invariant(&*self);
        }
        let pos = self.position(d);
        let key = slice_chars(d, 0, d.len());
        assert(key@ =~= d@);
        let ghost before = self.rows@;
        let mut rows: Vec<(Vec<char>, StrMap)> = Vec::new();
        std::mem::swap(&mut rows, &mut self.rows);
        match pos {
            Some(i) => {
                rows.set(i, (key, row));
                proof {
                    assert forall|a: int, b: int| 0 <= a < b < rows@.len() implies (
                    #[trigger] rows@[a]).0@ != (#[trigger] rows@[b]).0@ by {
                        assert(before[a].0@ != before[b].0@);
                    }
                    assert forall|x: Seq<char>| #[trigger] rows_map(rows@).dom().contains(x) <==> old(
                        self,
                    )@.insert(d@, row@).dom().contains(x) by {
                        if rows_map(rows@).dom().contains(x) {
                            let j = choose|j: int| row_at(rows@, x, j);
                            if j != i {
                                assert(row_at(before, x, j));
                            }
                        }
                        if x != d@ && old(self)@.dom().contains(x) {
                            let j = choose|j: int| row_at(before, x, j);
                            assert(row_at(rows@, x, j));
                        }
                        if x == d@ {
                            assert(row_at(rows@, x, i as int));
                        }
                    }
                    assert forall|x: Seq<char>| #[trigger] rows_map(rows@).dom().contains(x) implies rows_map(
                        rows@,
                    )[x] == old(self)@.insert(d@, row@)[x] by {
                        let j = choose|j: int| row_at(rows@, x, j);
                        lemma_rows_map(rows@, j);
                        if j != i {
                            lemma_rows_map(before, j);
                        }
                    }
                    assert(rows_map(rows@) =~= old(self)@.insert(d@, row@));
                }
            },
            None => {
                rows.push((key, row));
                proof {
                    let n = before.len() as int;
                    assert forall|a: int, b: int| 0 <= a < b < rows@.len() implies (
                    #[trigger] rows@[a]).0@ != (#[trigger] rows@[b]).0@ by {
                        if b == n {
                            assert(row_at(before, rows@[a].0@, a));
                        } else {
                            assert(before[a].0@ != before[b].0@);
                        }
                    }
                    assert forall|x: Seq<char>| #[trigger] rows_map(rows@).dom().contains(x) <==> old(
                        self,
                    )@.insert(d@, row@).dom().contains(x) by {
                        if rows_map(rows@).dom().contains(x) {
                            let j = choose|j: int| row_at(rows@, x, j);
                            if j != n {
                                assert(row_at(before, x, j));
                            }
                        }
                        if x != d@ && old(self)@.dom().contains(x) {
                            let j = choose|j: int| row_at(before, x, j);
                            assert(row_at(rows@, x, j));
                        }
                        if x == d@ {
                            assert(row_at(rows@, x, n));
                        }
                    }
                    assert forall|x: Seq<char>| #[trigger] rows_map(rows@).dom().contains(x) implies rows_map(
                        rows@,
                    )[x] == old(self)@.insert(d@, row@)[x] by {
                        let j = choose|j: int| row_at(rows@, x, j);
                        lemma_rows_map(rows@, j);
                        if j != n {
                            lemma_rows_map(before, j);
                        }
                    }
                    assert(rows_map(rows@) =~= old(self)@.insert(d@, row@));
                }
            },
        }
        self.rows = rows;
    }

    /// Takes the row for day `d` out of the table, if there is one.
    pub fn take(&mut self, d: &[char]) -> (r: Option<StrMap>)
        ensures
            final(self)@ == old(self)@.remove(d@),
            match r {
                Some(row) => row_entry(old(self)@, d@) == Some(row@),
                None => row_entry(old(self)@, d@) is None,
            },
    {
        proof {
            use_type_invariant(&*self);
        }
        let pos = self.position(d);
        match pos {
            Some(i) => {
                let ghost before = self.rows@;
                let mut rows: Vec<(Vec<char>, StrMap)> = Vec::new();
                std::mem::swap(&mut rows, &mut self.rows);
                let (_, row) = rows.remove(i);
                proof {
                    assert(rows@ =~= before.remove(i as int));
                    assert forall|a: int, b: int| 0 <= a < b < rows@.len() implies (
                    #[trigger] rows@[a]).0@ != (#[trigger] rows@[b]).0@ by {
                        let aa = if a < i { a } else { a + 1 };
                        let bb = if b < i { b } else { b + 1 };
                        assert(rows@[a] == before[aa]);
                        assert(rows@[b] == before[bb]);
                    }
                    assert forall|x: Seq<char>| #[trigger] rows_map(rows@).dom().contains(x) <==> old(
                        self,
                    )@.remove(d@).dom().contains(x) by {
                        if rows_map(rows@).dom().contains(x) {
                            let j = choose|j: int| row_at(rows@, x, j);
                            let jj = if j < i { j } else { j + 1 };
                            assert(row_at(before, x, jj));
                            assert(before[i as int].0@ != before[jj].0@);
                        }
                        if x != d@ && old(self)@.dom().contains(x) {
                            let j = choose|j: int| row_at(before, x, j);
                            if j < i {
                                assert(row_at(rows@, x, j));
                            } else {
                                assert(j != i);
                                assert(row_at(rows@, x, j - 1));
                            }
                        }
                    }
                    assert forall|x: Seq<char>| #[trigger] rows_map(rows@).dom().contains(x) implies rows_map(
                        rows@,
                    )[x] == old(self)@.remove(d@)[x] by {
                        let j = choose|j: int| row_at(rows@, x, j);
                        lemma_rows_map(rows@, j);
                        let jj = if j < i { j } else { j + 1 };
                        lemma_rows_map(before, jj);
                    }
                    assert(rows_map(rows@) =~= old(self)@.remove(d@));
                }
                self.rows = rows;
                Some(row)
            },
            None => {
                assert(old(self)@.remove(d@) =~= old(self)@);
                None
            },
        }
    }

    /// Every day of the table once, in the order the rows were first added.
    pub fn dates(&self) -> (r: Vec<Vec<char>>)
        ensures
            keys_view(r@).no_duplicates(),
            forall|d: Seq<char>| self@.dom().contains(d) <==> #[trigger] keys_view(r@).contains(d),
    {
        proof {
            use_type_invariant(self);
        }
        let mut r: Vec<Vec<char>> = Vec::new();
        let mut i: usize = 0;
        while i < self.rows.len()
            invariant
                0 <= i <= self.rows@.len(),
                dates_unique(self.rows@),
                r@.len() == i,
                forall|j: int| 0 <= j < i ==> (#[trigger] r@[j])@ == self.rows@[j].0@,
            decreases self.rows.len() - i,
        {
            let d = slice_chars(&self.rows[i].0, 0, self.rows[i].0.len());
            assert(d@ =~= self.rows@[i as int].0@);
            r.push(d);
            i += 1;
        }
        proof {
            assert forall|a: int, b: int|
                0 <= a < keys_view(r@).len() && 0 <= b < keys_view(r@).len() && a != b implies keys_view(
                r@,
            )[a] != keys_view(r@)[b] by {
                if a < b {
                    assert(self.rows@[a].0@ != self.rows@[b].0@);
                } else {
                    assert(self.rows@[b].0@ != self.rows@[a].0@);
                }
            }
            assert forall|d: Seq<char>| self@.dom().contains(d) <==> #[trigger] keys_view(r@).contains(d) by {
                if self@.dom().contains(d) {
                    let j = choose|j: int| row_at(self.rows@, d, j);
                    assert(keys_view(r@)[j] == d);
                }
                if keys_view(r@).contains(d) {
                    let j = choose|j: int| 0 <= j < keys_view(r@).len() && keys_view(r@)[j] == d;
                    assert(row_at(self.rows@, d, j));
                }
            }
        }
        r
    }
}


// ───────────────────────── reading a month file ─────────────────────────

/// The cells of a table line: the outer bars dropped, split at the inner
/// ones, each cell trimmed.
pub open spec fn cells_of(t: Seq<char>) -> Seq<Seq<char>> {
    split_char(trim_start_chars(trim_end_chars(t, seq!['|']), seq!['|']), '|').map_values(
        |c: Seq<char>| trim(c),
    )
}

pub open spec fn rule_char(c: char) -> bool {
    c == '-' || c == ':' || c == ' '
}

/// The line under the header: nothing but `-`, `:` and spaces in every cell.
pub open spec fn is_rule(cells: Seq<Seq<char>>) -> bool {
    forall|i: int, j: int|
        0 <= i < cells.len() && 0 <= j < cells[i].len() ==> rule_char(#[trigger] cells[i][j])
}

/// The `i`-th cell, or an empty one past the end of the line.
pub open spec fn cell_at(cells: Seq<Seq<char>>, i: int) -> Seq<char> {
    if 0 <= i < cells.len() {
        cells[i]
    } else {
        ""@
    }
}

/// The states of a row under the first `n` header cells (the first header
/// cell names the day column).
pub open spec fn row_upto(header: Seq<Seq<char>>, cells: Seq<Seq<char>>, n: int) -> Map<
    Seq<char>,
    Seq<char>,
>
    decreases n,
{
    if n <= 1 {
        Map::empty()
    } else {
        row_upto(header, cells, n - 1).insert(header[n - 1], state_of(cell_at(cells, n - 1)))
    }
}

pub open spec fn row_of(header: Seq<Seq<char>>, cells: Seq<Seq<char>>) -> Map<Seq<char>, Seq<char>> {
    row_upto(header, cells, header.len() as int)
}

/// What reading the month file has gathered after some lines: the header
/// cells (empty until the first table line), whether the rule under the
/// header has passed, and the table so far.
pub type MonthScan = (Seq<Seq<char>>, bool, Map<Seq<char>, Map<Seq<char>, Seq<char>>>);

/// One line of a month file: a table line sets the header, passes the
/// rule, or adds the row of its day; a first cell shorter than 8 bytes is
/// no day, and any other line is skipped.
pub open spec fn scan_step(st: MonthScan, line: Seq<char>) -> MonthScan {
    let t = trim(line);
    if !(t.len() > 0 && t[0] == '|') {
        st
    } else {
        let cells = cells_of(t);
        if cells.len() == 0 {
            st
        } else if st.0.len() == 0 {
            (cells, st.1, st.2)
        } else if !st.1 && is_rule(cells) {
            (st.0, true, st.2)
        } else if byte_len(cells[0]) < 8 {
            st
        } else {
            (st.0, st.1, st.2.insert(cells[0], row_of(st.0, cells)))
        }
    }
}

pub open spec fn scan_month(ls: Seq<Seq<char>>) -> MonthScan
    decreases ls.len(),
{
    if ls.len() == 0 {
        (seq![], false, Map::empty())
    } else {
        scan_step(scan_month(ls.drop_last()), ls.last())
    }
}

/// The table a month file holds: read from the lines of its body (after
/// any frontmatter); a later row for the same day replaces an earlier one.
pub open spec fn parse_month_spec(raw: Seq<char>) -> Map<Seq<char>, Map<Seq<char>, Seq<char>>> {
    scan_month(lines(split_fm_spec(raw).1)).2
}

fn cells_exec(t: &Vec<char>) -> (r: Vec<Vec<char>>)
    ensures
        keys_view(r@) == cells_of(t@),
{
    let mut bar: Vec<char> = Vec::new();
    bar.push('|');
    assert(bar@ =~= seq!['|']);
    let u = trim_start_chars_exec(&trim_end_chars_exec(t, &bar), &bar);
    let parts = split_char_exec(&u, '|');
    let ghost sp = split_char(u@, '|');
    let mut r: Vec<Vec<char>> = Vec::new();
    let mut i: usize = 0;
    while i < parts.len()
        invariant
            0 <= i <= parts@.len(),
            parts@.len() == sp.len(),
            forall|k: int| 0 <= k < parts@.len() ==> #[trigger] parts@[k]@ == sp[k],
            keys_view(r@) == sp.take(i as int).map_values(|c: Seq<char>| trim(c)),
        decreases parts.len() - i,
    {
        let ghost before = keys_view(r@);
        r.push(trim_exec(&parts[i]));
        assert(keys_view(r@) =~= before.push(trim(sp[i as int])));
        assert(sp.take(i + 1).map_values(|c: Seq<char>| trim(c)) =~= sp.take(i as int).map_values(
            |c: Seq<char>| trim(c),
        ).push(trim(sp[i as int])));
        i += 1;
    }
    assert(sp.take(sp.len() as int) =~= sp);
    r
}

fn is_rule_exec(cells: &Vec<Vec<char>>) -> (r: bool)
    ensures
        r == is_rule(keys_view(cells@)),
{
    let mut i: usize = 0;
    while i < cells.len()
        invariant
            0 <= i <= cells@.len(),
            forall|a: int, b: int|
                0 <= a < i && 0 <= b < cells@[a]@.len() ==> rule_char(#[trigger] cells@[a]@[b]),
        decreases cells.len() - i,
    {
        let c = &cells[i];
        let mut j: usize = 0;
        while j < c.len()
            invariant
                0 <= j <= c@.len(),
                0 <= i < cells@.len(),
                c@ == cells@[i as int]@,
                forall|b: int| 0 <= b < j ==> rule_char(#[trigger] c@[b]),
            decreases c.len() - j,
        {
            let ch = c[j];
            if !(ch == '-' || ch == ':' || ch == ' ') {
                assert(!rule_char(keys_view(cells@)[i as int][j as int]));
                return false;
            }
            j += 1;
        }
        assert forall|a: int, b: int|
            0 <= a < i + 1 && 0 <= b < cells@[a]@.len() implies rule_char(#[trigger] cells@[a]@[b]) by {
            if a == i {
                assert(cells@[a]@[b] == c@[b]);
            }
        }
        i += 1;
    }
    proof {
        assert forall|a: int, b: int|
            0 <= a < keys_view(cells@).len() && 0 <= b < keys_view(cells@)[a].len() implies rule_char(
            #[trigger] keys_view(cells@)[a][b],
        ) by {
            assert(keys_view(cells@)[a] == cells@[a]@);
        }
    }
    true
}

fn row_from(header: &Vec<Vec<char>>, cells: &Vec<Vec<char>>) -> (r: StrMap)
    ensures
        r@ == row_of(keys_view(header@), keys_view(cells@)),
{
    let ghost hv = keys_view(header@);
    let ghost cv = keys_view(cells@);
    let mut r = StrMap::new();
    if header.len() == 0 {
        return r;
    }
    let mut i: usize = 1;
    while i < header.len()
        invariant
            1 <= i <= header@.len(),
            hv == keys_view(header@),
            cv == keys_view(cells@),
            r@ == row_upto(hv, cv, i as int),
        decreases header.len() - i,
    {
        let v: &'static str = if i < cells.len() {
            state_chars(&cells[i])
        } else {
            proof {
                reveal_strlit("");
            }
            let e: Vec<char> = Vec::new();
            assert(e@ =~= ""@);
            state_chars(&e)
        };
        assert(cell_at(cv, i as int) == (if i < cells@.len() {
            cells@[i as int]@
        } else {
            ""@
        }));
        r.put(&header[i], &chars_of(v));
        i += 1;
    }
    r
}

/// The table a month file holds.
pub fn parse_month(raw: &str) -> (m: Matrix)
    ensures
        m@ == parse_month_spec(raw@),
{
    let (_, body) = split_frontmatter(raw);
    let ls = lines_exec(&chars_of(body.as_str()));
    let ghost lv = lines(body@);
    let mut header: Vec<Vec<char>> = Vec::new();
    let mut seen_sep = false;
    let mut out = Matrix::new();
    let mut i: usize = 0;
    assert(lv.take(0) =~= Seq::<Seq<char>>::empty());
    while i < ls.len()
        invariant
            0 <= i <= ls@.len(),
            ls@.len() == lv.len(),
            forall|k: int| 0 <= k < ls@.len() ==> #[trigger] ls@[k]@ == lv[k],
            scan_month(lv.take(i as int)) == (keys_view(header@), seen_sep, out@),
        decreases ls.len() - i,
    {
        let ghost st = scan_month(lv.take(i as int));
        assert(lv.take(i + 1).drop_last() =~= lv.take(i as int));
        assert(lv.take(i + 1).last() == lv[i as int]);
        let t = trim_exec(&ls[i]);
        if t.len() > 0 && t[0] == '|' {
            let cells = cells_exec(&t);
            if cells.len() == 0 {
            } else if header.len() == 0 {
                header = cells;
            } else if !seen_sep && is_rule_exec(&cells) {
                seen_sep = true;
            } else if byte_len_upto(&cells[0], 8) < 8 {
            } else {
                let row = row_from(&header, &cells);
                out.put(&cells[0], row);
            }
        }
        i += 1;
    }
    assert(lv.take(lv.len() as int) =~= lv);
    out
}

// ───────────────────────── days of a month ─────────────────────────

/// The days from `d` on of year `y`, month `m`, up to the 31st, while
/// chrono accepts them, as `YYYY-MM-DD` texts.
pub open spec fn days_from(y: int, m: int, d: int) -> Seq<Seq<char>>
    decreases 32 - d,
{
    if d < 1 || d > 31 {
        seq![]
    } else {
        match ymd_text(y, m, d) {
            Some(t) => seq![t] + days_from(y, m, d + 1),
            None => seq![],
        }
    }
}

/// The days of a `YYYY-MM` month. A year or month that does not read as a
/// number stands for 2026 or January; a text without `-` has no days.
pub open spec fn month_days_spec(month: Seq<char>) -> Seq<Seq<char>> {
    match split_once(month, '-') {
        None => seq![],
        Some((a, b)) => {
            let y = match parse_int_spec(a, true, i32::MIN as int, i32::MAX as int) {
                Some(v) => v,
                None => 2026,
            };
            let m = match parse_int_spec(b, false, 0, u32::MAX as int) {
                Some(v) => v,
                None => 1,
            };
            days_from(y, m, 1)
        },
    }
}

/// The days of a `YYYY-MM` month, as `YYYY-MM-DD` texts.
pub fn month_days(month: &str) -> (r: Vec<String>)
    ensures
        crate::text::strs(r@) == month_days_spec(month@),
{
    let mut out: Vec<String> = Vec::new();
    let (y, m) = match split_once_exec(&chars_of(month), '-') {
        Some((a, b)) => {
            let y = match parse_i32(&a) {
                Some(v) => v,
                None => 2026,
            };
            let m = match parse_u32(&b) {
                Some(v) => v,
                None => 1,
            };
            (y, m)
        },
        None => {
            assert(crate::text::strs(out@) =~= Seq::<Seq<char>>::empty());
            return out;
        },
    };
    let ghost all = days_from(y as int, m as int, 1);
    assert(all == month_days_spec(month@));
    let mut d: u32 = 1;
    while d <= 31
        invariant
            1 <= d <= 32,
            all == days_from(y as int, m as int, 1),
            all == month_days_spec(month@),
            all == crate::text::strs(out@) + days_from(y as int, m as int, d as int),
        decreases 32 - d,
    {
        match format_ymd(y, m, d) {
            Some(t) => {
                let ghost before = crate::text::strs(out@);
                out.push(t);
                assert(crate::text::strs(out@) =~= before.push(t@));
                assert(before + days_from(y as int, m as int, d as int) =~= crate::text::strs(out@)
                    + days_from(y as int, m as int, d + 1));
                d += 1;
            },
            None => {
                assert(crate::text::strs(out@) + days_from(y as int, m as int, d as int) =~= crate::text::strs(out@));
                return out;
            },
        }
    }
    assert(crate::text::strs(out@) + days_from(y as int, m as int, d as int) =~= crate::text::strs(out@));
    out
}

/// The last day that the month's table holds a row for, as of `today`:
/// the whole month for a past month, up to today for the current one, and
/// none for a month still to come.
pub open spec fn last_row_spec(month: Seq<char>, today: int) -> Option<int> {
    let days = month_days_spec(month);
    if days.len() == 0 {
        None
    } else {
        match day_number(days.last()) {
            None => None,
            Some(last) => match month_text(today) {
                None => None,
                Some(tm) => if seq_lt(month, tm) {
                    Some(last)
                } else if month == tm {
                    Some(today)
                } else {
                    None
                },
            },
        }
    }
}

/// The last day that the month's table holds a row for, as of `today`.
pub fn last_row(month: &str, today: i32) -> (r: Option<i32>)
    ensures
        opt_num(r) == last_row_spec(month@, today as int),
{
    let days = month_days(month);
    if days.len() == 0 {
        return None;
    }
    let last = match parse_day(days[days.len() - 1].as_str()) {
        Some(n) => n,
        None => return None,
    };
    let tm = match format_month(today) {
        Some(t) => t,
        None => return None,
    };
    let mc = chars_of(month);
    let tc = chars_of(tm.as_str());
    if chars_lt(&mc, &tc) {
        Some(last)
    } else if chars_eq(&mc, &tc) {
        Some(today)
    } else {
        None
    }
}

// ───────────────────────── writing a month file ─────────────────────────

/// What the app keeps of a habit.
#[derive(Clone, Debug)]
pub struct Habit {
    pub name: String,
    pub color: String,
    /// the day it was added, `YYYY-MM-DD`
    pub created: String,
    pub note: String,
    pub archived: bool,
}

pub open spec fn habit_names(hs: Seq<Habit>) -> Seq<Seq<char>> {
    hs.map_values(|h: Habit| h.name@)
}

pub open spec fn month_head(month: Seq<char>) -> Seq<char> {
    "---\nmonth: \""@ + month + "\"\n---\n\n# "@ + month
        + " 打卡记录\n\n> 由 mnesphere 维护。取值只有三种：`done` 做到了、`missed` 没做到、留空 未打卡。\n\n"@
}

/// The header line, without its line break: the day column, then one
/// column per habit.
pub open spec fn names_line(names: Seq<Seq<char>>) -> Seq<char>
    decreases names.len(),
{
    if names.len() == 0 {
        "| 日期 |"@
    } else {
        names_line(names.drop_last()) + " "@ + names.last() + " |"@
    }
}

/// The rule under the header, with the line breaks around it.
pub open spec fn rule_line(n: nat) -> Seq<char>
    decreases n,
{
    if n == 0 {
        "\n| --- |"@
    } else {
        rule_line((n - 1) as nat) + " --- |"@
    }
}

/// The cells of day `d`'s row, one per habit.
pub open spec fn row_cells(
    d: Seq<char>,
    names: Seq<Seq<char>>,
    data: Map<Seq<char>, Map<Seq<char>, Seq<char>>>,
) -> Seq<char>
    decreases names.len(),
{
    if names.len() == 0 {
        seq![]
    } else {
        row_cells(d, names.drop_last(), data) + " "@ + mark_of(cell(data, d, names.last())) + " |"@
    }
}

pub open spec fn row_line(
    d: Seq<char>,
    names: Seq<Seq<char>>,
    data: Map<Seq<char>, Map<Seq<char>, Seq<char>>>,
) -> Seq<char> {
    "| "@ + d + " |"@ + row_cells(d, names, data) + "\n"@
}

/// The rows for `days` up to day `end` (a day that does not read is left
/// out).
pub open spec fn rows_from(
    days: Seq<Seq<char>>,
    end: int,
    names: Seq<Seq<char>>,
    data: Map<Seq<char>, Map<Seq<char>, Seq<char>>>,
) -> Seq<char>
    decreases days.len(),
{
    if days.len() == 0 {
        seq![]
    } else {
        match day_number(days[0]) {
            None => rows_from(days.drop_first(), end, names, data),
            Some(n) => if n > end {
                seq![]
            } else {
                row_line(days[0], names, data) + rows_from(days.drop_first(), end, names, data)
            },
        }
    }
}

/// The month file for `data`: every habit gets a column (archived ones too,
/// so that their history stays), and every day up to the last row a line.
pub open spec fn render_month_spec(
    month: Seq<char>,
    names: Seq<Seq<char>>,
    data: Map<Seq<char>, Map<Seq<char>, Seq<char>>>,
    today: int,
) -> Seq<char> {
    month_head(month) + names_line(names) + rule_line(names.len()) + "\n"@ + match last_row_spec(
        month,
        today,
    ) {
        Some(end) => rows_from(month_days_spec(month), end, names, data),
        None => seq![],
    }
}

fn push_str(out: &mut Vec<char>, s: &str)
    ensures
        final(out)@ == old(out)@ + s@,
{
    push_all(out, &chars_of(s));
}

fn row_line_exec(d: &[char], habits: &Vec<Habit>, data: &Matrix) -> (r: Vec<char>)
    ensures
        r@ == row_line(d@, habit_names(habits@), data@),
{
    let ghost names = habit_names(habits@);
    let mut out: Vec<char> = Vec::new();
    push_str(&mut out, "| ");
    push_all(&mut out, d);
    push_str(&mut out, " |");
    let ghost head = out@;
    let row = data.find(d);
    let mut i: usize = 0;
    assert(names.take(0) =~= Seq::<Seq<char>>::empty());
    while i < habits.len()
        invariant
            0 <= i <= habits@.len(),
            names == habit_names(habits@),
            match row {
                Some(rw) => row_entry(data@, d@) == Some(rw@),
                None => row_entry(data@, d@) is None,
            },
            out@ == head + row_cells(d@, names.take(i as int), data@),
        decreases habits.len() - i,
    {
        let v: &'static str = match row {
            Some(rw) => match rw.get(habits[i].name.as_str()) {
                Some(s) => state_mark(s.as_str()),
                None => {
                    proof {
                        reveal_strlit("");
                    }
                    ""
                },
            },
            None => {
                proof {
                    reveal_strlit("");
                }
                ""
            },
        };
        assert(v@ == mark_of(cell(data@, d@, names[i as int])));
        push_str(&mut out, " ");
        push_str(&mut out, v);
        push_str(&mut out, " |");
        assert(names.take(i + 1).drop_last() =~= names.take(i as int));
        i += 1;
    }
    assert(names.take(names.len() as int) =~= names);
    push_str(&mut out, "\n");
    out
}

/// The month file for `data`, as of `today`.
pub fn render_month(month: &str, habits: &Vec<Habit>, data: &Matrix, today: i32) -> (r: String)
    ensures
        r@ == render_month_spec(month@, habit_names(habits@), data@, today as int),
{
    let ghost names = habit_names(habits@);
    let mut out: Vec<char> = Vec::new();
    push_str(&mut out, "---\nmonth: \"");
    push_str(&mut out, month);
    push_str(&mut out, "\"\n---\n\n# ");
    push_str(&mut out, month);
    push_str(
        &mut out,
        " 打卡记录\n\n> 由 mnesphere 维护。取值只有三种：`done` 做到了、`missed` 没做到、留空 未打卡。\n\n",
    );
    assert(out@ =~= month_head(month@));
    push_str(&mut out, "| 日期 |");
    let mut i: usize = 0;
    assert(names.take(0) =~= Seq::<Seq<char>>::empty());
    while i < habits.len()
        invariant
            0 <= i <= habits@.len(),
            names == habit_names(habits@),
            out@ == month_head(month@) + names_line(names.take(i as int)),
        decreases habits.len() - i,
    {
        push_str(&mut out, " ");
        push_str(&mut out, habits[i].name.as_str());
        push_str(&mut out, " |");
        assert(names.take(i + 1).drop_last() =~= names.take(i as int));
        i += 1;
    }
    assert(names.take(names.len() as int) =~= names);
    push_str(&mut out, "\n| --- |");
    let mut j: usize = 0;
    while j < habits.len()
        invariant
            0 <= j <= habits@.len(),
            names == habit_names(habits@),
            out@ == month_head(month@) + names_line(names) + rule_line(j as nat),
        decreases habits.len() - j,
    {
        push_str(&mut out, " --- |");
        j += 1;
    }
    push_str(&mut out, "\n");
    let ghost top = out@;
    assert(top == month_head(month@) + names_line(names) + rule_line(names.len()) + "\n"@);
    match last_row(month, today) {
        Some(end) => {
            let days = month_days(month);
            let ghost dv = crate::text::strs(days@);
            let mut k: usize = 0;
            assert(dv.skip(0) =~= dv);
            while k < days.len()
                invariant
                    0 <= k <= days@.len(),
                    dv == crate::text::strs(days@),
                    dv == month_days_spec(month@),
                    names == habit_names(habits@),
                    rows_from(dv, end as int, names, data@) == out@.skip(top.len() as int) + rows_from(
                        dv.skip(k as int),
                        end as int,
                        names,
                        data@,
                    ),
                    top.len() <= out@.len(),
                    out@.take(top.len() as int) == top,
                ensures
                    rows_from(dv, end as int, names, data@) == out@.skip(top.len() as int),
                    top.len() <= out@.len(),
                    out@.take(top.len() as int) == top,
                decreases days.len() - k,
            {
                let ghost rest = dv.skip(k as int);
                assert(rest[0] == days@[k as int]@);
                assert(rest.drop_first() =~= dv.skip(k + 1));
                match parse_day(days[k].as_str()) {
                    None => {},
                    Some(n) => {
                        if n > end {
                            assert(rows_from(rest, end as int, names, data@) =~= Seq::<char>::empty());
                            assert(out@.skip(top.len() as int) + Seq::<char>::empty() =~= out@.skip(top.len() as int));
                            break;
                        }
                        let line = row_line_exec(&chars_of(days[k].as_str()), habits, data);
                        let ghost before = out@;
                        push_all(&mut out, &line);
                        assert(out@.skip(top.len() as int) =~= before.skip(top.len() as int) + line@);
                        assert(out@.take(top.len() as int) =~= before.take(top.len() as int));
                    },
                }
                k += 1;
            }
            proof {
                assert(out@ =~= top + out@.skip(top.len() as int));
                assert(out@.skip(top.len() as int) == rows_from(dv, end as int, names, data@));
                assert(last_row_spec(month@, today as int) == Some(end as int));
                assert(out@ == render_month_spec(month@, names, data@, today as int));
            }
        },
        None => {
            assert(out@ =~= top + Seq::<char>::empty());
        },
    }
    string_of(&out)
}

// ───────────────────────── a month as the app shows it ─────────────────────────

/// A copy of a habit.
pub fn copy_habit(h: &Habit) -> (r: Habit)
    ensures
        r == *h,
{
    Habit {
        name: h.name.clone(),
        color: h.color.clone(),
        created: h.created.clone(),
        note: h.note.clone(),
        archived: h.archived,
    }
}

/// The habits that are not archived, in order.
pub open spec fn active_of(hs: Seq<Habit>) -> Seq<Habit>
    decreases hs.len(),
{
    if hs.len() == 0 {
        seq![]
    } else if hs.last().archived {
        active_of(hs.drop_last())
    } else {
        active_of(hs.drop_last()).push(hs.last())
    }
}

/// The habits that are not archived, in order.
pub fn active_habits(habits: &Vec<Habit>) -> (r: Vec<Habit>)
    ensures
        r@ == active_of(habits@),
{
    let mut r: Vec<Habit> = Vec::new();
    let mut i: usize = 0;
    assert(habits@.take(0) =~= Seq::<Habit>::empty());
    while i < habits.len()
        invariant
            0 <= i <= habits@.len(),
            r@ == active_of(habits@.take(i as int)),
        decreases habits.len() - i,
    {
        assert(habits@.take(i + 1).drop_last() =~= habits@.take(i as int));
        if !habits[i].archived {
            r.push(copy_habit(&habits[i]));
        }
        i += 1;
    }
    assert(habits@.take(habits@.len() as int) =~= habits@);
    r
}

/// How a habit's days add up.
#[derive(Clone, Copy, Debug, PartialEq, Eq, Structural)]
pub struct Counts {
    pub done: i32,
    pub missed: i32,
    pub none: i32,
}

/// One day of the month view.
#[derive(Debug)]
pub struct DayCell {
    pub date: String,
    /// the day of the month
    pub day: u32,
    /// Monday is 0
    pub weekday: u32,
    /// habit name → `done`, `missed` or empty
    pub states: StrMap,
    /// the day is still to come
    pub future: bool,
    pub today: bool,
}

/// A month as the app shows it: the active habits, every day, and what each
/// habit's past days add up to.
#[derive(Debug)]
pub struct MonthView {
    pub month: String,
    pub label: String,
    pub habits: Vec<Habit>,
    pub days: Vec<DayCell>,
    /// one entry per habit name, in the order the habits come
    pub summary: Vec<(String, Counts)>,
}

/// The month (`YYYY-MM`) that `today` falls in, as text.
pub open spec fn this_month(today: int) -> Seq<char> {
    match month_text(today) {
        Some(t) => t,
        None => ""@,
    }
}

/// A day is still to come: its month is later than this one, or the day
/// is later than today.
pub open spec fn is_future(month: Seq<char>, n: int, today: int) -> bool {
    seq_lt(this_month(today), month) || n > today
}

/// The states of day `d` for each habit name.
pub open spec fn day_states(
    d: Seq<char>,
    names: Seq<Seq<char>>,
    data: Map<Seq<char>, Map<Seq<char>, Seq<char>>>,
) -> Map<Seq<char>, Seq<char>>
    decreases names.len(),
{
    if names.len() == 0 {
        Map::empty()
    } else {
        day_states(d, names.drop_last(), data).insert(
            names.last(),
            mark_of(cell(data, d, names.last())),
        )
    }
}

/// What the view shows of one day.
pub struct DayCellSpec {
    pub date: Seq<char>,
    pub day: int,
    pub weekday: int,
    pub states: Map<Seq<char>, Seq<char>>,
    pub future: bool,
    pub today: bool,
}

impl View for DayCell {
    type V = DayCellSpec;

    open spec fn view(&self) -> DayCellSpec {
        DayCellSpec {
            date: self.date@,
            day: self.day as int,
            weekday: self.weekday as int,
            states: self.states@,
            future: self.future,
            today: self.today,
        }
    }
}

pub open spec fn day_cell_spec(
    month: Seq<char>,
    d: Seq<char>,
    n: int,
    names: Seq<Seq<char>>,
    data: Map<Seq<char>, Map<Seq<char>, Seq<char>>>,
    today: int,
) -> DayCellSpec {
    DayCellSpec {
        date: d,
        day: match day_parts(n) {
            Some(p) => p.0,
            None => 0,
        },
        weekday: match day_parts(n) {
            Some(p) => p.1,
            None => 0,
        },
        states: day_states(d, names, data),
        future: is_future(month, n, today),
        today: day_text(today) == Some(d),
    }
}

/// The days of the view: every day of the month that reads as a day.
pub open spec fn day_cells(
    month: Seq<char>,
    days: Seq<Seq<char>>,
    names: Seq<Seq<char>>,
    data: Map<Seq<char>, Map<Seq<char>, Seq<char>>>,
    today: int,
) -> Seq<DayCellSpec>
    decreases days.len(),
{
    if days.len() == 0 {
        seq![]
    } else {
        let rest = day_cells(month, days.drop_last(), names, data, today);
        match day_number(days.last()) {
            Some(n) => rest.push(day_cell_spec(month, days.last(), n, names, data, today)),
            None => rest,
        }
    }
}

/// What one habit's past days of the month add up to.
pub open spec fn month_tally(
    month: Seq<char>,
    days: Seq<Seq<char>>,
    name: Seq<char>,
    data: Map<Seq<char>, Map<Seq<char>, Seq<char>>>,
    today: int,
) -> (int, int, int)
    decreases days.len(),
{
    if days.len() == 0 {
        (0, 0, 0)
    } else {
        let t = month_tally(month, days.drop_last(), name, data, today);
        match day_number(days.last()) {
            Some(n) => if is_future(month, n, today) {
                t
            } else {
                let s = mark_of(cell(data, days.last(), name));
                if s == "done"@ {
                    (t.0 + 1, t.1, t.2)
                } else if s == "missed"@ {
                    (t.0, t.1 + 1, t.2)
                } else {
                    (t.0, t.1, t.2 + 1)
                }
            },
            None => t,
        }
    }
}

pub open spec fn name_at(sum: Seq<(Seq<char>, (int, int, int))>, name: Seq<char>, i: int) -> bool {
    0 <= i < sum.len() && sum[i].0 == name
}

/// The summary for `names`: one entry per name, in order of first
/// appearance, adding up what each of its habits' days add up to.
pub open spec fn summary_of(
    month: Seq<char>,
    days: Seq<Seq<char>>,
    names: Seq<Seq<char>>,
    data: Map<Seq<char>, Map<Seq<char>, Seq<char>>>,
    today: int,
) -> Seq<(Seq<char>, (int, int, int))>
    decreases names.len(),
{
    if names.len() == 0 {
        seq![]
    } else {
        let acc = summary_of(month, days, names.drop_last(), data, today);
        let n = names.last();
        let t = month_tally(month, days, n, data, today);
        if exists|i: int| name_at(acc, n, i) {
            let i = choose|i: int| name_at(acc, n, i);
            acc.update(i, (n, (acc[i].1.0 + t.0, acc[i].1.1 + t.1, acc[i].1.2 + t.2)))
        } else {
            acc.push((n, t))
        }
    }
}

/// The label of a month: `YYYY 年 MM 月` for a `YYYY-MM` text.
pub open spec fn month_label(month: Seq<char>) -> Seq<char> {
    if byte_len(month) >= 7 {
        match (byte_slice(month, 0, 4), byte_slice(month, 5, 7)) {
            (Some(y), Some(m)) => y + " 年 "@ + m + " 月"@,
            _ => month,
        }
    } else {
        month
    }
}

/// The label can be cut out of the month text: the cuts at bytes 4, 5
/// and 7 fall between characters.
pub open spec fn label_cuts_ok(month: Seq<char>) -> bool {
    byte_len(month) >= 7 ==> byte_slice(month, 0, 4) is Some && byte_slice(month, 5, 7) is Some
}

pub proof fn lemma_days_from_len(y: int, m: int, d: int)
    ensures
        days_from(y, m, d).len() <= if d < 1 { 0 } else if d > 32 { 0 } else { 32 - d },
    decreases 32 - d,
{
    if 1 <= d <= 31 {
        lemma_days_from_len(y, m, d + 1);
    }
}

pub proof fn lemma_month_days_len(month: Seq<char>)
    ensures
        month_days_spec(month).len() <= 31,
{
    match split_once(month, '-') {
        None => {},
        Some((a, b)) => {
            let y = match parse_int_spec(a, true, i32::MIN as int, i32::MAX as int) {
                Some(v) => v,
                None => 2026,
            };
            let m = match parse_int_spec(b, false, 0, u32::MAX as int) {
                Some(v) => v,
                None => 1,
            };
            lemma_days_from_len(y, m, 1);
        },
    }
}

pub proof fn lemma_month_tally_bounds(
    month: Seq<char>,
    days: Seq<Seq<char>>,
    name: Seq<char>,
    data: Map<Seq<char>, Map<Seq<char>, Seq<char>>>,
    today: int,
)
    ensures
        ({
            let t = month_tally(month, days, name, data, today);
            0 <= t.0 && 0 <= t.1 && 0 <= t.2 && t.0 + t.1 + t.2 <= days.len()
        }),
    decreases days.len(),
{
    if days.len() > 0 {
        lemma_month_tally_bounds(month, days.drop_last(), name, data, today);
    }
}

fn day_states_exec(d: &[char], active: &Vec<Habit>, data: &Matrix) -> (r: StrMap)
    ensures
        r@ == day_states(d@, habit_names(active@), data@),
{
    let ghost names = habit_names(active@);
    let mut r = StrMap::new();
    let row = data.find(d);
    let mut i: usize = 0;
    assert(names.take(0) =~= Seq::<Seq<char>>::empty());
    while i < active.len()
        invariant
            0 <= i <= active@.len(),
            names == habit_names(active@),
            match row {
                Some(rw) => row_entry(data@, d@) == Some(rw@),
                None => row_entry(data@, d@) is None,
            },
            r@ == day_states(d@, names.take(i as int), data@),
        decreases active.len() - i,
    {
        let v: &'static str = match row {
            Some(rw) => match rw.get(active[i].name.as_str()) {
                Some(s) => state_mark(s.as_str()),
                None => {
                    proof {
                        reveal_strlit("");
                    }
                    ""
                },
            },
            None => {
                proof {
                    reveal_strlit("");
                }
                ""
            },
        };
        assert(v@ == mark_of(cell(data@, d@, names[i as int])));
        r.insert(active[i].name.as_str(), v);
        assert(names.take(i + 1).drop_last() =~= names.take(i as int));
        i += 1;
    }
    assert(names.take(names.len() as int) =~= names);
    r
}

fn future_exec(tm: &Vec<char>, month: &Vec<char>, n: i32, today: i32) -> (r: bool)
    requires
        tm@ == this_month(today as int),
    ensures
        r == is_future(month@, n as int, today as int),
{
    chars_lt(tm, month) || n > today
}

fn this_month_exec(today: i32) -> (r: Vec<char>)
    ensures
        r@ == this_month(today as int),
{
    match format_month(today) {
        Some(t) => chars_of(t.as_str()),
        None => {
            proof {
                reveal_strlit("");
            }
            let e: Vec<char> = Vec::new();
            assert(e@ =~= ""@);
            e
        },
    }
}

fn month_tally_exec(
    month: &Vec<char>,
    tm: &Vec<char>,
    days: &Vec<String>,
    name: &str,
    data: &Matrix,
    today: i32,
) -> (r: Counts)
    requires
        tm@ == this_month(today as int),
        days@.len() <= 31,
    ensures
        (r.done as int, r.missed as int, r.none as int) == month_tally(
            month@,
            crate::text::strs(days@),
            name@,
            data@,
            today as int,
        ),
{
    let ghost dv = crate::text::strs(days@);
    let mut c = Counts { done: 0, missed: 0, none: 0 };
    let mut i: usize = 0;
    assert(dv.take(0) =~= Seq::<Seq<char>>::empty());
    while i < days.len()
        invariant
            0 <= i <= days@.len(),
            days@.len() <= 31,
            dv == crate::text::strs(days@),
            tm@ == this_month(today as int),
            (c.done as int, c.missed as int, c.none as int) == month_tally(
                month@,
                dv.take(i as int),
                name@,
                data@,
                today as int,
            ),
        decreases days.len() - i,
    {
        proof {
            lemma_month_tally_bounds(month@, dv.take(i as int), name@, data@, today as int);
        }
        assert(dv.take(i + 1).drop_last() =~= dv.take(i as int));
        assert(dv.take(i + 1).last() == days@[i as int]@);
        match parse_day(days[i].as_str()) {
            Some(n) => {
                if !future_exec(tm, month, n, today) {
                    let s: &'static str = match data.get(days[i].as_str()) {
                        Some(rw) => match rw.get(name) {
                            Some(v) => state_mark(v.as_str()),
                            None => {
                                proof {
                                    reveal_strlit("");
                                }
                                ""
                            },
                        },
                        None => {
                            proof {
                                reveal_strlit("");
                            }
                            ""
                        },
                    };
                    assert(s@ == mark_of(cell(data@, days@[i as int]@, name@)));
                    let sc = chars_of(s);
                    if chars_eq(&sc, &chars_of("done")) {
                        c.done = c.done + 1;
                    } else if chars_eq(&sc, &chars_of("missed")) {
                        c.missed = c.missed + 1;
                    } else {
                        c.none = c.none + 1;
                    }
                }
            },
            None => {},
        }
        i += 1;
    }
    assert(dv.take(dv.len() as int) =~= dv);
    c
}

pub open spec fn summary_view(v: Seq<(String, Counts)>) -> Seq<(Seq<char>, (int, int, int))> {
    v.map_values(|e: (String, Counts)| (e.0@, (e.1.done as int, e.1.missed as int, e.1.none as int)))
}

pub open spec fn names_distinct(sum: Seq<(Seq<char>, (int, int, int))>) -> bool {
    forall|i: int, j: int| 0 <= i < j < sum.len() ==> (#[trigger] sum[i]).0 != (#[trigger] sum[j]).0
}

pub open spec fn sum_bounded(sum: Seq<(Seq<char>, (int, int, int))>, b: int) -> bool {
    forall|i: int|
        0 <= i < sum.len() ==> 0 <= (#[trigger] sum[i]).1.0 <= b && 0 <= sum[i].1.1 <= b && 0
            <= sum[i].1.2 <= b
}

fn summary_exec(
    month: &Vec<char>,
    tm: &Vec<char>,
    days: &Vec<String>,
    active: &Vec<Habit>,
    data: &Matrix,
    today: i32,
) -> (r: Vec<(String, Counts)>)
    requires
        tm@ == this_month(today as int),
        days@.len() <= 31,
        active@.len() * 31 <= i32::MAX,
    ensures
        summary_view(r@) == summary_of(
            month@,
            crate::text::strs(days@),
            habit_names(active@),
            data@,
            today as int,
        ),
{
    let ghost names = habit_names(active@);
    let ghost dv = crate::text::strs(days@);
    let mut out: Vec<(String, Counts)> = Vec::new();
    let mut i: usize = 0;
    assert(names.take(0) =~= Seq::<Seq<char>>::empty());
    assert(summary_view(out@) =~= Seq::<(Seq<char>, (int, int, int))>::empty());
    while i < active.len()
        invariant
            0 <= i <= active@.len(),
            active@.len() * 31 <= i32::MAX,
            days@.len() <= 31,
            tm@ == this_month(today as int),
            names == habit_names(active@),
            dv == crate::text::strs(days@),
            summary_view(out@) == summary_of(month@, dv, names.take(i as int), data@, today as int),
            names_distinct(summary_view(out@)),
            sum_bounded(summary_view(out@), 31 * i),
        decreases active.len() - i,
    {
        let name = active[i].name.as_str();
        let t = month_tally_exec(month, tm, days, name, data, today);
        proof {
            lemma_month_tally_bounds(month@, dv, name@, data@, today as int);
        }
        let ghost acc = summary_view(out@);
        assert(names.take(i + 1).drop_last() =~= names.take(i as int));
        assert(names.take(i + 1).last() == name@);
        let nc = chars_of(name);
        let mut j: usize = 0;
        let mut found: Option<usize> = None;
        while j < out.len()
            invariant_except_break
                found is None,
                forall|k: int| 0 <= k < j ==> acc[k].0 != name@,
            invariant
                0 <= j <= out@.len(),
                acc == summary_view(out@),
                nc@ == name@,
            ensures
                match found {
                    Some(k) => k < out@.len() && acc[k as int].0 == name@,
                    None => forall|k: int| 0 <= k < out@.len() ==> acc[k].0 != name@,
                },
            decreases out.len() - j,
        {
            if chars_eq(&chars_of(out[j].0.as_str()), &nc) {
                found = Some(j);
                break;
            }
            j += 1;
        }
        match found {
            Some(k) => {
                assert(name_at(acc, name@, k as int));
                let old_c = out[k].1;
                proof {
                    let kk = choose|q: int| name_at(acc, name@, q);
                    if kk != k {
                        if kk < k {
                            assert(acc[kk].0 != acc[k as int].0);
                        } else {
                            assert(acc[k as int].0 != acc[kk].0);
                        }
                    }
                    assert(sum_bounded(acc, 31 * i));
                    assert(0 <= acc[k as int].1.0 <= 31 * i);
                }
                let nk = (
                    out[k].0.clone(),
                    Counts {
                        done: old_c.done + t.done,
                        missed: old_c.missed + t.missed,
                        none: old_c.none + t.none,
                    },
                );
                out.set(k, nk);
                proof {
                    assert(summary_view(out@) =~= acc.update(
                        k as int,
                        (name@, (acc[k as int].1.0 + t.done, acc[k as int].1.1 + t.missed, acc[k as int].1.2 + t.none)),
                    ));
                    assert forall|a: int, b: int| 0 <= a < b < summary_view(out@).len() implies (
                    #[trigger] summary_view(out@)[a]).0 != (#[trigger] summary_view(out@)[b]).0 by {
                        assert(acc[a].0 != acc[b].0);
                    }
                }
            },
            None => {
                assert(!exists|q: int| name_at(acc, name@, q));
                out.push((name.to_owned(), t));
                proof {
                    assert(summary_view(out@) =~= acc.push((name@, (t.done as int, t.missed as int, t.none as int))));
                    assert forall|a: int, b: int| 0 <= a < b < summary_view(out@).len() implies (
                    #[trigger] summary_view(out@)[a]).0 != (#[trigger] summary_view(out@)[b]).0 by {
                        if b == acc.len() {
                            assert(acc[a].0 != name@);
                        } else {
                            assert(acc[a].0 != acc[b].0);
                        }
                    }
                }
            },
        }
        i += 1;
    }
    assert(names.take(names.len() as int) =~= names);
    out
}

/// The month view of `month` as of `today`: the active habits, a cell for
/// every day of the month, and for each habit name what its days up to
/// today add up to.
pub fn build_month(month: &str, habits: &Vec<Habit>, data: &Matrix, today: i32) -> (r: MonthView)
    requires
        label_cuts_ok(month@),
        habits@.len() * 31 <= i32::MAX,
    ensures
        r.month@ == month@,
        r.label@ == month_label(month@),
        r.habits@ == active_of(habits@),
        r.days@.map_values(|c: DayCell| c@) == day_cells(
            month@,
            month_days_spec(month@),
            habit_names(active_of(habits@)),
            data@,
            today as int,
        ),
        summary_view(r.summary@) == summary_of(
            month@,
            month_days_spec(month@),
            habit_names(active_of(habits@)),
            data@,
            today as int,
        ),
{
    let active = active_habits(habits);
    proof {
        lemma_active_len(habits@);
    }
    let ghost names = habit_names(active@);
    let mc = chars_of(month);
    let tm = this_month_exec(today);
    let days = month_days(month);
    let ghost dv = crate::text::strs(days@);
    proof {
        lemma_month_days_len(month@);
    }
    let today_text = format_day(today);
    let mut cells: Vec<DayCell> = Vec::new();
    let mut i: usize = 0;
    assert(dv.take(0) =~= Seq::<Seq<char>>::empty());
    while i < days.len()
        invariant
            0 <= i <= days@.len(),
            dv == crate::text::strs(days@),
            names == habit_names(active@),
            tm@ == this_month(today as int),
            mc@ == month@,
            opt_text_of(today_text) == day_text(today as int),
            cells@.map_values(|c: DayCell| c@) == day_cells(month@, dv.take(i as int), names, data@, today as int),
        decreases days.len() - i,
    {
        assert(dv.take(i + 1).drop_last() =~= dv.take(i as int));
        assert(dv.take(i + 1).last() == days@[i as int]@);
        let ghost before = cells@.map_values(|c: DayCell| c@);
        match parse_day(days[i].as_str()) {
            Some(n) => {
                let (day, weekday) = match day_of(n) {
                    Some(p) => p,
                    None => (0, 0),
                };
                let is_today = match &today_text {
                    Some(t) => chars_eq(&chars_of(t.as_str()), &chars_of(days[i].as_str())),
                    None => false,
                };
                let c = DayCell {
                    date: days[i].clone(),
                    day,
                    weekday,
                    states: day_states_exec(&chars_of(days[i].as_str()), &active, data),
                    future: future_exec(&tm, &mc, n, today),
                    today: is_today,
                };
                cells.push(c);
                assert(cells@.map_values(|c: DayCell| c@) =~= before.push(
                    day_cell_spec(month@, days@[i as int]@, n as int, names, data@, today as int),
                ));
            },
            None => {
                assert(cells@.map_values(|c: DayCell| c@) =~= before);
            },
        }
        i += 1;
    }
    assert(dv.take(dv.len() as int) =~= dv);
    let summary = summary_exec(&mc, &tm, &days, &active, data, today);
    let label = if byte_len_upto(&mc, 7) >= 7 {
        let y = byte_slice_exec(&mc, 0, 4);
        let m = byte_slice_exec(&mc, 5, 7);
        match (y, m) {
            (Some(y), Some(m)) => {
                let mut out: Vec<char> = Vec::new();
                push_all(&mut out, &y);
                push_str(&mut out, " 年 ");
                push_all(&mut out, &m);
                push_str(&mut out, " 月");
                string_of(&out)
            },
            _ => month.to_owned(),
        }
    } else {
        month.to_owned()
    };
    MonthView { month: month.to_owned(), label, habits: active, days: cells, summary }
}

pub open spec fn opt_text_of(r: Option<String>) -> Option<Seq<char>> {
    match r {
        Some(s) => Some(s@),
        None => None,
    }
}

pub proof fn lemma_active_len(hs: Seq<Habit>)
    ensures
        active_of(hs).len() <= hs.len(),
    decreases hs.len(),
{
    if hs.len() > 0 {
        lemma_active_len(hs.drop_last());
    }
}

// ───────────────────────── a habit's history ─────────────────────────

/// Days before today that may pass without any record before a streak
/// counts as broken; without the limit, "no record does not break a
/// streak" would make one run through the whole history.
pub const NONE_TOLERANCE: usize = 3;

/// One month's column for `habit`: day → state, where the day's row has one.
pub open spec fn column(m: Map<Seq<char>, Map<Seq<char>, Seq<char>>>, habit: Seq<char>) -> Map<
    Seq<char>,
    Seq<char>,
> {
    Map::new(|d: Seq<char>| m.dom().contains(d) && m[d].dom().contains(habit), |d: Seq<char>| m[d][habit])
}

/// A habit's whole history: every month's column, later months winning.
pub open spec fn series_of(months: Seq<Map<Seq<char>, Map<Seq<char>, Seq<char>>>>, habit: Seq<char>) -> Map<
    Seq<char>,
    Seq<char>,
>
    decreases months.len(),
{
    if months.len() == 0 {
        Map::empty()
    } else {
        series_of(months.drop_last(), habit).union_prefer_right(column(months.last(), habit))
    }
}

pub open spec fn tables_view(v: Seq<Matrix>) -> Seq<Map<Seq<char>, Map<Seq<char>, Seq<char>>>> {
    v.map_values(|m: Matrix| m@)
}

/// The days of a history in text order, each once.
pub open spec fn sorted_keys(m: Map<Seq<char>, Seq<char>>) -> Seq<Seq<char>> {
    choose|ks: Seq<Seq<char>>|
        crate::text::strictly_sorted(ks) && forall|k: Seq<char>| #[trigger] ks.contains(k) <==> m.dom().contains(k)
}

pub proof fn lemma_sorted_keys(m: Map<Seq<char>, Seq<char>>, ks: Seq<Seq<char>>)
    requires
        crate::text::strictly_sorted(ks),
        forall|k: Seq<char>| #[trigger] ks.contains(k) <==> m.dom().contains(k),
    ensures
        sorted_keys(m) == ks,
{
    let c = sorted_keys(m);
    assert(crate::text::strictly_sorted(c) && forall|k: Seq<char>| #[trigger] c.contains(k) <==> m.dom().contains(k));
    crate::text::lemma_strictly_sorted_unique(c, ks);
}

/// How many of the days `ks` hold `done`, `missed`, and anything else.
pub open spec fn count_states(s: Map<Seq<char>, Seq<char>>, ks: Seq<Seq<char>>) -> (nat, nat, nat)
    decreases ks.len(),
{
    if ks.len() == 0 {
        (0, 0, 0)
    } else {
        let t = count_states(s, ks.drop_last());
        let v = s[ks.last()];
        if v == "done"@ {
            (t.0 + 1, t.1, t.2)
        } else if v == "missed"@ {
            (t.0, t.1 + 1, t.2)
        } else {
            (t.0, t.1, t.2 + 1)
        }
    }
}

/// The day numbers of the days `ks` that read as days, in order.
pub open spec fn day_numbers(ks: Seq<Seq<char>>) -> Seq<int>
    decreases ks.len(),
{
    if ks.len() == 0 {
        seq![]
    } else {
        match day_number(ks.last()) {
            Some(n) => day_numbers(ks.drop_last()).push(n),
            None => day_numbers(ks.drop_last()),
        }
    }
}

/// The state a history holds for day number `n`.
pub open spec fn state_on(s: Map<Seq<char>, Seq<char>>, n: int) -> Seq<char> {
    match day_text(n) {
        Some(t) => match entry(s, t) {
            Some(v) => v,
            None => ""@,
        },
        None => ""@,
    }
}

/// The current streak, walking back from `k` days before today: a `done`
/// counts, a `missed` ends it, and days without a record are passed over
/// but no more than `NONE_TOLERANCE` in a row; the walk stops before the
/// habit was created and after five years.
pub open spec fn streak_from(s: Map<Seq<char>, Seq<char>>, created: Option<int>, today: int, k: int, run: int) -> int
    decreases 1826 - k,
{
    if k < 0 || k > 1825 {
        0
    } else if created matches Some(cd) && today - k < cd {
        0
    } else {
        let st = state_on(s, today - k);
        if st == "done"@ {
            1 + streak_from(s, created, today, k + 1, 0)
        } else if st == "missed"@ {
            0
        } else if run + 1 > NONE_TOLERANCE {
            0
        } else {
            streak_from(s, created, today, k + 1, run + 1)
        }
    }
}

/// The longest run of `done` on consecutive days of `ds` (sorted): the
/// best so far and the run that ends at the last day.
pub open spec fn longest_run(s: Map<Seq<char>, Seq<char>>, ds: Seq<int>) -> (int, int)
    decreases ds.len(),
{
    if ds.len() == 0 {
        (0, 0)
    } else {
        let p = longest_run(s, ds.drop_last());
        let d = ds.last();
        let contiguous = ds.len() >= 2 && d - ds[ds.len() - 2] == 1;
        let run0 = if contiguous { p.1 } else { 0 };
        if state_on(s, d) == "done"@ {
            let r = run0 + 1;
            (if r > p.0 { r } else { p.0 }, r)
        } else {
            (p.0, 0)
        }
    }
}

/// Of the days `start + k` up to `start + 6` that are not after today:
/// how many hold `done`, and how many there are.
pub open spec fn week_counts(s: Map<Seq<char>, Seq<char>>, start: int, k: int, today: int) -> (int, int)
    decreases 7 - k,
{
    if k < 0 || k >= 7 || start + k > today {
        (0, 0)
    } else {
        let r = week_counts(s, start, k + 1, today);
        (r.0 + if state_on(s, start + k) == "done"@ { 1int } else { 0int }, r.1 + 1)
    }
}

/// A habit's whole history from the month tables, in month order.
pub fn habit_series(months: &Vec<Matrix>, habit: &str) -> (r: StrMap)
    ensures
        r@ == series_of(tables_view(months@), habit@),
{
    let ghost mv = tables_view(months@);
    let mut series = StrMap::new();
    let mut i: usize = 0;
    assert(mv.take(0) =~= Seq::<Map<Seq<char>, Map<Seq<char>, Seq<char>>>>::empty());
    while i < months.len()
        invariant
            0 <= i <= months@.len(),
            mv == tables_view(months@),
            series@ == series_of(mv.take(i as int), habit@),
        decreases months.len() - i,
    {
        let m = &months[i];
        let ghost base = series@;
        let ds = m.dates();
        let hc = chars_of(habit);
        let mut j: usize = 0;
        while j < ds.len()
            invariant
                0 <= j <= ds@.len(),
                hc@ == habit@,
                keys_view(ds@).no_duplicates(),
                forall|d: Seq<char>| m@.dom().contains(d) <==> #[trigger] keys_view(ds@).contains(d),
                series@ == base.union_prefer_right(
                    column(m@, habit@).restrict(keys_view(ds@).take(j as int).to_set()),
                ),
            decreases ds.len() - j,
        {
            let ghost before = series@;
            let ghost d = ds@[j as int]@;
            proof {
                crate::text::lemma_take_one_more(keys_view(ds@), j as int);
            }
            assert(keys_view(ds@).contains(d)) by {
                assert(keys_view(ds@)[j as int] == d);
            }
            match m.find(&ds[j]) {
                Some(row) => match row.find(&hc) {
                    Some(v) => {
                        series.put(&ds[j], v);
                        assert(series@ =~= base.union_prefer_right(
                            column(m@, habit@).restrict(keys_view(ds@).take(j + 1).to_set()),
                        ));
                    },
                    None => {
                        assert(series@ =~= base.union_prefer_right(
                            column(m@, habit@).restrict(keys_view(ds@).take(j + 1).to_set()),
                        ));
                    },
                },
                None => {
                    assert(series@ =~= base.union_prefer_right(
                        column(m@, habit@).restrict(keys_view(ds@).take(j + 1).to_set()),
                    ));
                },
            }
            j += 1;
        }
        proof {
            assert(keys_view(ds@).take(ds@.len() as int) =~= keys_view(ds@));
            assert(column(m@, habit@).restrict(keys_view(ds@).to_set()) =~= column(m@, habit@));
            assert(mv.take(i + 1).drop_last() =~= mv.take(i as int));
            assert(mv.take(i + 1).last() == m@);
        }
        i += 1;
    }
    assert(mv.take(mv.len() as int) =~= mv);
    series
}

/// The days of a history, in text order.
fn sorted_days(series: &StrMap) -> (r: Vec<Vec<char>>)
    ensures
        keys_view(r@) == sorted_keys(series@),
        crate::text::strictly_sorted(keys_view(r@)),
        forall|k: Seq<char>| #[trigger] keys_view(r@).contains(k) <==> series@.dom().contains(k),
{
    let ks = series.keys();
    let mut r: Vec<Vec<char>> = Vec::new();
    let mut i: usize = 0;
    while i < ks.len()
        invariant
            0 <= i <= ks@.len(),
            forall|d: Seq<char>| series@.dom().contains(d) <==> #[trigger] keys_view(ks@).contains(d),
            crate::text::strictly_sorted(keys_view(r@)),
            forall|x: Seq<char>| #[trigger] keys_view(r@).contains(x) <==> keys_view(ks@).take(i as int).contains(x),
        decreases ks.len() - i,
    {
        crate::text::insert_sorted(&mut r, &ks[i]);
        proof {
            crate::text::lemma_take_one_more(keys_view(ks@), i as int);
        }
        i += 1;
    }
    proof {
        assert(keys_view(ks@).take(ks@.len() as int) =~= keys_view(ks@));
        lemma_sorted_keys(series@, keys_view(r@));
    }
    r
}

pub open spec fn ints(v: Seq<i32>) -> Seq<int> {
    v.map_values(|x: i32| x as int)
}

/// The day numbers, ascending.
fn sort_days(v: &Vec<i32>) -> (r: Vec<i32>)
    ensures
        ints(r@) == ints(v@).sort(),
{
    broadcast use vstd::seq_lib::group_to_multiset_ensures;

    let mut r: Vec<i32> = Vec::new();
    let mut i: usize = 0;
    assert(ints(v@).take(0) =~= Seq::<int>::empty());
    assert(ints(r@) =~= Seq::<int>::empty());
    while i < v.len()
        invariant
            0 <= i <= v@.len(),
            forall|a: int, b: int| 0 <= a < b < r@.len() ==> r@[a] <= r@[b],
            ints(r@).to_multiset() == ints(v@).take(i as int).to_multiset(),
        decreases v.len() - i,
    {
        let x = v[i];
        let mut p: usize = 0;
        while p < r.len() && r[p] <= x
            invariant
                0 <= p <= r@.len(),
                forall|q: int| 0 <= q < p ==> r@[q] <= x,
            decreases r.len() - p,
        {
            p += 1;
        }
        let ghost before = ints(r@);
        let ghost old_r = r@;
        assert(p < r@.len() ==> r@[p as int] > x);
        r.insert(p, x);
        proof {
            assert(ints(r@) =~= before.insert(p as int, x as int));
            assert(ints(v@).take(i + 1) =~= ints(v@).take(i as int).push(x as int));
            vstd::seq_lib::to_multiset_insert(before, p as int, x as int);
            vstd::seq_lib::to_multiset_build(ints(v@).take(i as int), x as int);
            assert forall|a: int, b: int| 0 <= a < b < r@.len() implies r@[a] <= r@[b] by {
                let aa = if a < p { a } else if a == p { -1 } else { a - 1 };
                let bb = if b < p { b } else if b == p { -1 } else { b - 1 };
                if aa >= 0 {
                    assert(r@[a] as int == before[aa]);
                }
                if bb >= 0 {
                    assert(r@[b] as int == before[bb]);
                }
                if bb >= 0 && p < before.len() {
                    assert(before[p as int] > x);
                }
            }
        }
        i += 1;
    }
    proof {
        assert(ints(v@).take(v@.len() as int) =~= ints(v@));
        ints(v@).lemma_sort_ensures();
        assert(vstd::relations::sorted_by(ints(r@), |x: int, y: int| x <= y));
        vstd::seq_lib::lemma_sorted_unique(ints(r@), ints(v@).sort(), |x: int, y: int| x <= y);
    }
    r
}

/// A week of the history chart.
#[derive(Debug)]
pub struct WeekBar {
    /// the week's Monday, `MM-DD`
    pub label: String,
    pub done: usize,
    /// the week's days up to today
    pub total: usize,
}

/// What a habit's history adds up to. (The rates are `done` over the days
/// with a record, and over a week's days.)
#[derive(Debug)]
pub struct HabitStats {
    pub habit: String,
    pub current_streak: usize,
    pub longest_streak: usize,
    pub done: usize,
    pub missed: usize,
    pub none: usize,
    /// the last twelve weeks, oldest first
    pub weeks: Vec<WeekBar>,
    /// the first day with a record, `YYYY-MM-DD`
    pub first_date: String,
    /// the days with a record that read as days
    pub total_days: usize,
}

/// The `created` text of the first habit with this name (empty if none).
pub open spec fn created_text(hs: Seq<Habit>, name: Seq<char>) -> Seq<char>
    decreases hs.len(),
{
    if hs.len() == 0 {
        ""@
    } else if hs[0].name@ == name {
        hs[0].created@
    } else {
        created_text(hs.drop_first(), name)
    }
}

/// The Monday of today's week.
pub open spec fn monday_of(today: int) -> int {
    today - match day_parts(today) {
        Some(p) => p.1,
        None => 0,
    }
}

pub open spec fn text_or_empty(t: Option<Seq<char>>) -> Seq<char> {
    match t {
        Some(x) => x,
        None => ""@,
    }
}

/// The bar of the week starting at `start`: its label, its `done` days and
/// its days up to today.
pub open spec fn week_bar(s: Map<Seq<char>, Seq<char>>, start: int, today: int) -> (Seq<char>, int, int) {
    let c = week_counts(s, start, 0, today);
    (text_or_empty(crate::calendar::short_text(start)), c.0, c.1)
}

/// The last twelve weeks up to today's, oldest first.
pub open spec fn weeks_of(s: Map<Seq<char>, Seq<char>>, today: int) -> Seq<(Seq<char>, int, int)> {
    Seq::new(12, |j: int| week_bar(s, monday_of(today) - 7 * (11 - j), today))
}

pub open spec fn weeks_view(v: Seq<WeekBar>) -> Seq<(Seq<char>, int, int)> {
    v.map_values(|w: WeekBar| (w.label@, w.done as int, w.total as int))
}

/// The first day that reads as a day, as chrono writes it.
pub open spec fn first_day_text(ds: Seq<int>) -> Seq<char> {
    if ds.len() == 0 {
        ""@
    } else {
        text_or_empty(day_text(ds[0]))
    }
}

fn lookup_state(series: &StrMap, n: i32) -> (r: Vec<char>)
    ensures
        r@ == state_on(series@, n as int),
{
    match format_day(n) {
        Some(t) => match series.find(&chars_of(t.as_str())) {
            Some(v) => slice_chars(v, 0, v.len()),
            None => {
                proof {
                    reveal_strlit("");
                }
                Vec::new()
            },
        },
        None => {
            proof {
                reveal_strlit("");
            }
            Vec::new()
        },
    }
}

fn text_or_empty_exec(t: Option<String>) -> (r: String)
    ensures
        r@ == text_or_empty(crate::calendar::opt_text(t)),
{
    match t {
        Some(x) => x,
        None => {
            proof {
                reveal_strlit("");
            }
            String::new()
        },
    }
}

fn created_of(habits: &Vec<Habit>, name: &str) -> (r: String)
    ensures
        r@ == created_text(habits@, name@),
{
    let nc = chars_of(name);
    let mut i: usize = 0;
    assert(habits@.skip(0) =~= habits@);
    while i < habits.len()
        invariant
            0 <= i <= habits@.len(),
            nc@ == name@,
            created_text(habits@, name@) == created_text(habits@.skip(i as int), name@),
        decreases habits.len() - i,
    {
        assert(habits@.skip(i as int)[0] == habits@[i as int]);
        assert(habits@.skip(i as int).drop_first() =~= habits@.skip(i + 1));
        if chars_eq(&chars_of(habits[i].name.as_str()), &nc) {
            return habits[i].created.clone();
        }
        i += 1;
    }
    proof {
        reveal_strlit("");
    }
    String::new()
}

fn is_done(v: &Vec<char>) -> (r: bool)
    ensures
        r == (v@ == "done"@),
{
    chars_eq(v, &chars_of("done"))
}

/// What a habit's history adds up to, as of `today`, from the month tables
/// in month order.
pub fn habit_stats(months: &Vec<Matrix>, habits: &Vec<Habit>, habit: &str, today: i32) -> (r: HabitStats)
    requires
        i32::MIN + 2000 < today,
    ensures
        ({
            let s = series_of(tables_view(months@), habit@);
            let ks = sorted_keys(s);
            let ds = day_numbers(ks);
            let c = count_states(s, ks);
            &&& r.habit@ == habit@
            &&& r.done as nat == c.0
            &&& r.missed as nat == c.1
            &&& r.none as nat == c.2
            &&& r.total_days as nat == ds.len()
            &&& r.first_date@ == first_day_text(ds)
            &&& r.current_streak as int == streak_from(
                s,
                day_number(created_text(habits@, habit@)),
                today as int,
                0,
                0,
            )
            &&& r.longest_streak as int == longest_run(s, ds.sort()).0
            &&& weeks_view(r.weeks@) == weeks_of(s, today as int)
        }),
{
    let series = habit_series(months, habit);
    let ghost s = series@;
    let keys = sorted_days(&series);
    let ghost ks = keys_view(keys@);
    // counts and the days that read as days, in text order
    let mut done: usize = 0;
    let mut missed: usize = 0;
    let mut none: usize = 0;
    let mut dates: Vec<i32> = Vec::new();
    let mut i: usize = 0;
    assert(ks.take(0) =~= Seq::<Seq<char>>::empty());
    assert(ints(dates@) =~= Seq::<int>::empty());
    while i < keys.len()
        invariant
            0 <= i <= keys@.len(),
            ks == keys_view(keys@),
            ks == sorted_keys(s),
            s == series@,
            forall|k: Seq<char>| #[trigger] ks.contains(k) <==> s.dom().contains(k),
            count_states(s, ks.take(i as int)) == (done as nat, missed as nat, none as nat),
            done + missed + none == i,
            ints(dates@) == day_numbers(ks.take(i as int)),
            dates@.len() <= i,
        decreases keys.len() - i,
    {
        proof {
            crate::text::lemma_take_one_more(ks, i as int);
            assert(ks.take(i + 1).drop_last() =~= ks.take(i as int));
            assert(ks.contains(ks[i as int]));
        }
        let v = match series.find(&keys[i]) {
            Some(v) => slice_chars(v, 0, v.len()),
            None => Vec::new(),
        };
        assert(v@ == s[ks[i as int]]);
        if is_done(&v) {
            done += 1;
        } else if chars_eq(&v, &chars_of("missed")) {
            missed += 1;
        } else {
            none += 1;
        }
        let ghost before = ints(dates@);
        match parse_day(string_of(&keys[i]).as_str()) {
            Some(n) => {
                dates.push(n);
                assert(ints(dates@) =~= before.push(n as int));
            },
            None => {},
        }
        i += 1;
    }
    assert(ks.take(ks.len() as int) =~= ks);
    let first_date = if dates.len() == 0 {
        proof {
            reveal_strlit("");
        }
        String::new()
    } else {
        text_or_empty_exec(format_day(dates[0]))
    };
    let total_days = dates.len();
    // the current streak, walking back from today
    let created = parse_day(created_of(habits, habit).as_str());
    let ghost cd = opt_num(created);
    let mut current: usize = 0;
    let mut run: usize = 0;
    let mut k: i32 = 0;
    while k <= 1825
        invariant
            0 <= k <= 1826,
            run <= NONE_TOLERANCE,
            current <= k,
            i32::MIN + 2000 < today,
            s == series@,
            cd == opt_num(created),
            streak_from(s, cd, today as int, 0, 0) == current + streak_from(s, cd, today as int, k as int, run as int),
        ensures
            streak_from(s, cd, today as int, 0, 0) == current,
        decreases 1826 - k,
    {
        let cursor = today - k;
        match created {
            Some(c) => {
                if cursor < c {
                    break;
                }
            },
            None => {},
        }
        let st = lookup_state(&series, cursor);
        if is_done(&st) {
            current += 1;
            run = 0;
        } else if chars_eq(&st, &chars_of("missed")) {
            break;
        } else {
            if run + 1 > NONE_TOLERANCE {
                break;
            }
            run += 1;
        }
        k += 1;
    }
    // the longest run of done on consecutive days
    let sorted = sort_days(&dates);
    let ghost sv = ints(sorted@);
    let mut longest: usize = 0;
    let mut cur_run: usize = 0;
    let mut j: usize = 0;
    assert(sv.take(0) =~= Seq::<int>::empty());
    while j < sorted.len()
        invariant
            0 <= j <= sorted@.len(),
            sv == ints(sorted@),
            s == series@,
            longest_run(s, sv.take(j as int)) == (longest as int, cur_run as int),
            longest <= j,
            cur_run <= j,
        decreases sorted.len() - j,
    {
        let d = sorted[j];
        assert(sv.take(j + 1).drop_last() =~= sv.take(j as int));
        assert(sv.take(j + 1).last() == d as int);
        let contiguous = j >= 1 && (d as i64) - (sorted[j - 1] as i64) == 1;
        assert(contiguous == (sv.take(j + 1).len() >= 2 && d as int - sv.take(j + 1)[j - 1] == 1));
        let run0 = if contiguous { cur_run } else { 0 };
        let st = lookup_state(&series, d);
        if is_done(&st) {
            cur_run = run0 + 1;
            if cur_run > longest {
                longest = cur_run;
            }
        } else {
            cur_run = 0;
        }
        j += 1;
    }
    assert(sv.take(sv.len() as int) =~= sv);
    // the last twelve weeks
    let weekday: i32 = match day_of(today) {
        Some((_, w)) => w as i32,
        None => 0,
    };
    let monday = today - weekday;
    let mut weeks: Vec<WeekBar> = Vec::new();
    let mut w: i32 = 0;
    while w < 12
        invariant
            0 <= w <= 12,
            s == series@,
            weeks_view(weeks@) == weeks_of(s, today as int).take(w as int),
            monday == monday_of(today as int),
            i32::MIN + 2000 < today,
            monday <= today,
            today - monday <= 6,
        decreases 12 - w,
    {
        let start = monday - 7 * (11 - w);
        let mut wd: usize = 0;
        let mut wt: usize = 0;
        let mut q: i32 = 0;
        while q < 7
            invariant
                0 <= q <= 7,
                wd <= q,
                wt <= q,
                s == series@,
                start <= today,
                i32::MIN + 1900 < start,
                week_counts(s, start as int, 0, today as int) == (wd as int + week_counts(s, start as int, q as int, today as int).0, wt as int + week_counts(s, start as int, q as int, today as int).1),
            ensures
                week_counts(s, start as int, 0, today as int) == (wd as int, wt as int),
            decreases 7 - q,
        {
            let d: i64 = start as i64 + q as i64;
            if d > today as i64 {
                break;
            }
            wt += 1;
            let st = lookup_state(&series, d as i32);
            if is_done(&st) {
                wd += 1;
            }
            q += 1;
        }
        let label = text_or_empty_exec(crate::calendar::format_short(start));
        let ghost before = weeks_view(weeks@);
        weeks.push(WeekBar { label, done: wd, total: wt });
        proof {
            assert(weeks_view(weeks@) =~= before.push(week_bar(s, start as int, today as int)));
            assert(weeks_of(s, today as int).take(w + 1) =~= weeks_of(s, today as int).take(w as int).push(
                weeks_of(s, today as int)[w as int],
            ));
        }
        w += 1;
    }
    assert(weeks_of(s, today as int).take(12) =~= weeks_of(s, today as int));
    HabitStats {
        habit: habit.to_owned(),
        current_streak: current,
        longest_streak: longest,
        done,
        missed,
        none,
        weeks,
        first_date,
        total_days,
    }
}

// ───────────────────────── changing cells ─────────────────────────

/// The month (`YYYY-MM`) a check-in on `date` goes to, or why it cannot be
/// made: a date that does not read, or one after today.
pub open spec fn cell_month_spec(date: Seq<char>, today: int) -> Result<Seq<char>, Seq<char>> {
    match day_number(date) {
        None => Err("日期格式错误"@),
        Some(n) => if n > today {
            Err("不能给未来的日期打卡"@)
        } else {
            match crate::text::byte_prefix(date, 7) {
                Some(m) => Ok(m),
                None => Err("日期格式错误"@),
            }
        },
    }
}

/// The month a check-in on `date` goes to, as of `today`.
pub fn cell_month(date: &str, today: i32) -> (r: Result<String, String>)
    ensures
        match r {
            Ok(m) => cell_month_spec(date@, today as int) == Ok::<Seq<char>, Seq<char>>(m@),
            Err(e) => cell_month_spec(date@, today as int) == Err::<Seq<char>, Seq<char>>(e@),
        },
{
    match parse_day(date) {
        None => Err("日期格式错误".to_owned()),
        Some(n) => if n > today {
            Err("不能给未来的日期打卡".to_owned())
        } else {
            match crate::text::byte_prefix_exec(&chars_of(date), 7) {
                Some(m) => Ok(string_of(&m)),
                None => Err("日期格式错误".to_owned()),
            }
        },
    }
}

/// The table after setting `habit` on `date` to the state `value` stands
/// for: an empty state clears the cell, and a row left empty goes.
pub open spec fn set_cell_spec(
    m: Map<Seq<char>, Map<Seq<char>, Seq<char>>>,
    date: Seq<char>,
    habit: Seq<char>,
    value: Seq<char>,
) -> Map<Seq<char>, Map<Seq<char>, Seq<char>>> {
    let row = match row_entry(m, date) {
        Some(r) => r,
        None => Map::empty(),
    };
    let v = state_of(value);
    let row2 = if v == ""@ {
        row.remove(habit)
    } else {
        row.insert(habit, v)
    };
    if row2 == Map::<Seq<char>, Seq<char>>::empty() {
        m.remove(date)
    } else {
        m.insert(date, row2)
    }
}

/// Sets `habit` on `date` to the state `value` stands for.
pub fn set_cell(data: &mut Matrix, habit: &str, date: &str, value: &str)
    ensures
        final(data)@ == set_cell_spec(old(data)@, date@, habit@, value@),
{
    let dc = chars_of(date);
    let mut row = match data.take(&dc) {
        Some(r) => r,
        None => StrMap::new(),
    };
    let v = normalize_state(value);
    if chars_of(v.as_str()).len() == 0 {
        assert(v@ =~= ""@) by {
            reveal_strlit("");
        }
        row.remove(habit);
    } else {
        assert(v@ != ""@) by {
            reveal_strlit("");
        }
        row.insert(habit, v.as_str());
    }
    if !row.is_empty() {
        data.put(&dc, row);
    } else {
        assert(old(data)@.remove(date@).remove(date@) =~= old(data)@.remove(date@));
    }
}

/// Sets a check-in, as the app does on a click: the date must read and not
/// be after today, and the habit must be one of `habits`.
pub fn apply_cell(
    habits: &Vec<Habit>,
    data: &mut Matrix,
    habit: &str,
    date: &str,
    value: &str,
    today: i32,
) -> (r: Result<(), String>)
    ensures
        match cell_month_spec(date@, today as int) {
            Err(e) => r is Err && r->Err_0@ == e,
            Ok(_) => if habit_names(habits@).contains(habit@) {
                r is Ok && final(data)@ == set_cell_spec(old(data)@, date@, habit@, value@)
            } else {
                r is Err && r->Err_0@ == "目标不存在"@ && final(data)@ == old(data)@
            },
        },
        r is Err ==> final(data)@ == old(data)@,
{
    match cell_month(date, today) {
        Err(e) => return Err(e),
        Ok(_) => {},
    }
    let hc = chars_of(habit);
    let mut i: usize = 0;
    while i < habits.len()
        invariant
            0 <= i <= habits@.len(),
            hc@ == habit@,
            data@ == old(data)@,
            cell_month_spec(date@, today as int) is Ok,
            forall|j: int| 0 <= j < i ==> habits@[j].name@ != habit@,
        decreases habits.len() - i,
    {
        if chars_eq(&chars_of(habits[i].name.as_str()), &hc) {
            assert(habit_names(habits@)[i as int] == habit@);
            set_cell(data, habit, date, value);
            return Ok(());
        }
        i += 1;
    }
    assert(!habit_names(habits@).contains(habit@)) by {
        if habit_names(habits@).contains(habit@) {
            let j = choose|j: int| 0 <= j < habit_names(habits@).len() && habit_names(habits@)[j] == habit@;
            assert(habits@[j].name@ == habit@);
        }
    }
    Err("目标不存在".to_owned())
}

/// The table with the column `old` renamed to `new` in every row.
pub open spec fn rename_column_spec(
    m: Map<Seq<char>, Map<Seq<char>, Seq<char>>>,
    old: Seq<char>,
    new: Seq<char>,
) -> Map<Seq<char>, Map<Seq<char>, Seq<char>>> {
    Map::new(
        |d: Seq<char>| m.dom().contains(d),
        |d: Seq<char>| if m[d].dom().contains(old) {
            m[d].remove(old).insert(new, m[d][old])
        } else {
            m[d]
        },
    )
}

/// Moves the column `from` to `to` in every row.
pub fn rename_column(data: &mut Matrix, from: &str, to: &str)
    ensures
        final(data)@ == rename_column_spec(old(data)@, from@, to@),
{
    let ds = data.dates();
    let ghost start = data@;
    let oc = chars_of(from);
    let mut i: usize = 0;
    while i < ds.len()
        invariant
            0 <= i <= ds@.len(),
            oc@ == from@,
            keys_view(ds@).no_duplicates(),
            forall|d: Seq<char>| start.dom().contains(d) <==> #[trigger] keys_view(ds@).contains(d),
            data@.dom() == start.dom(),
            forall|d: Seq<char>| #[trigger] data@.dom().contains(d) ==> data@[d] == (
            if keys_view(ds@).take(i as int).contains(d) {
                rename_column_spec(start, from@, to@)[d]
            } else {
                start[d]
            }),
        decreases ds.len() - i,
    {
        proof {
            crate::text::lemma_take_one_more(keys_view(ds@), i as int);
            assert(keys_view(ds@)[i as int] == ds@[i as int]@);
            assert(keys_view(ds@).contains(ds@[i as int]@));
        }
        let ghost d = ds@[i as int]@;
        let ghost before = data@;
        assert(!keys_view(ds@).take(i as int).contains(d)) by {
            if keys_view(ds@).take(i as int).contains(d) {
                let q = choose|q: int| 0 <= q < i && keys_view(ds@).take(i as int)[q] == d;
                assert(keys_view(ds@)[q] == keys_view(ds@)[i as int]);
            }
        }
        match data.take(&ds[i]) {
            Some(mut row) => {
                match row.get(from) {
                    Some(v) => {
                        row.remove(from);
                        row.insert(to, v.as_str());
                    },
                    None => {},
                }
                data.put(&ds[i], row);
                proof {
                    assert(data@.dom() =~= start.dom());
                }
            },
            None => {},
        }
        i += 1;
    }
    proof {
        assert(keys_view(ds@).take(ds@.len() as int) =~= keys_view(ds@));
        assert(data@ =~= rename_column_spec(start, from@, to@));
    }
}

// ───────────────────────── the list of habits ─────────────────────────

/// The list after adding a habit named `name` (made safe as a title),
/// created on `created`, or why it cannot be added.
pub fn add_habit_to(
    habits: &mut Vec<Habit>,
    name: &str,
    color: Option<String>,
    note: Option<String>,
    created: &str,
) -> (r: Result<(), String>)
    ensures
        ({
            let clean = crate::note::sanitize_title_spec(name@);
            if clean.len() == 0 {
                r is Err && r->Err_0@ == "目标名称不能为空"@ && final(habits)@ == old(habits)@
            } else if habit_names(old(habits)@).contains(clean) {
                r is Err && r->Err_0@ == "已存在同名目标："@ + clean && final(habits)@ == old(habits)@
            } else {
                &&& r is Ok
                &&& final(habits)@.len() == old(habits)@.len() + 1
                &&& final(habits)@.drop_last() == old(habits)@
                &&& final(habits)@.last().name@ == clean
                &&& final(habits)@.last().color@ == (match color {
                    Some(c) => c@,
                    None => "cyan"@,
                })
                &&& final(habits)@.last().created@ == created@
                &&& final(habits)@.last().note@ == (match note {
                    Some(n) => n@,
                    None => ""@,
                })
                &&& !final(habits)@.last().archived
            }
        }),
{
    let clean = crate::note::sanitize_title(name);
    if chars_of(clean.as_str()).len() == 0 {
        return Err("目标名称不能为空".to_owned());
    }
    let cc = chars_of(clean.as_str());
    let mut i: usize = 0;
    while i < habits.len()
        invariant
            0 <= i <= habits@.len(),
            cc@ == clean@,
            habits@ == old(habits)@,
            clean@ == crate::note::sanitize_title_spec(name@),
            clean@.len() > 0,
            forall|j: int| 0 <= j < i ==> habits@[j].name@ != clean@,
        decreases habits.len() - i,
    {
        if chars_eq(&chars_of(habits[i].name.as_str()), &cc) {
            assert(habit_names(habits@)[i as int] == clean@);
            let mut msg = chars_of("已存在同名目标：");
            push_all(&mut msg, &cc);
            return Err(string_of(&msg));
        }
        i += 1;
    }
    assert(!habit_names(habits@).contains(clean@)) by {
        if habit_names(habits@).contains(clean@) {
            let j = choose|j: int| 0 <= j < habit_names(habits@).len() && habit_names(habits@)[j] == clean@;
            assert(habits@[j].name@ == clean@);
        }
    }
    let color = match color {
        Some(c) => c,
        None => "cyan".to_owned(),
    };
    let note = match note {
        Some(n) => n,
        None => {
            proof {
                reveal_strlit("");
            }
            String::new()
        },
    };
    let ghost before = habits@;
    habits.push(Habit { name: clean, color, created: created.to_owned(), note, archived: false });
    assert(habits@.drop_last() =~= before);
    Ok(())
}

/// Where the habit `old_name` is in the list and the name it will have,
/// or why it cannot be changed: no such habit, or the new name (made safe
/// as a title; an empty one keeps the old) is taken by another.
pub fn habit_rename_target(habits: &Vec<Habit>, old_name: &str, name: Option<String>) -> (r: Result<
    (usize, String),
    String,
>)
    ensures
        match r {
            Ok((pos, new_name)) => {
                &&& pos < habits@.len()
                &&& habits@[pos as int].name@ == old_name@
                &&& forall|j: int| 0 <= j < pos ==> habits@[j].name@ != old_name@
                &&& new_name@ == (match name {
                    Some(n) => if crate::note::sanitize_title_spec(n@).len() > 0 {
                        crate::note::sanitize_title_spec(n@)
                    } else {
                        old_name@
                    },
                    None => old_name@,
                })
                &&& (new_name@ != old_name@ ==> !habit_names(habits@).contains(new_name@))
            },
            Err(e) => {
                ||| (!habit_names(habits@).contains(old_name@) && e@ == "目标不存在"@)
                ||| (habit_names(habits@).contains(old_name@) && e@ != "目标不存在"@)
            },
        },
        r is Err <==> (!habit_names(habits@).contains(old_name@) || ({
            let n2 = match name {
                Some(n) => if crate::note::sanitize_title_spec(n@).len() > 0 {
                    crate::note::sanitize_title_spec(n@)
                } else {
                    old_name@
                },
                None => old_name@,
            };
            n2 != old_name@ && habit_names(habits@).contains(n2)
        })),
{
    let oc = chars_of(old_name);
    let mut pos: usize = 0;
    while pos < habits.len() && !chars_eq(&chars_of(habits[pos].name.as_str()), &oc)
        invariant
            0 <= pos <= habits@.len(),
            oc@ == old_name@,
            forall|j: int| 0 <= j < pos ==> habits@[j].name@ != old_name@,
        decreases habits.len() - pos,
    {
        pos += 1;
    }
    if pos == habits.len() {
        assert(!habit_names(habits@).contains(old_name@)) by {
            if habit_names(habits@).contains(old_name@) {
                let j = choose|j: int| 0 <= j < habit_names(habits@).len() && habit_names(habits@)[j] == old_name@;
                assert(habits@[j].name@ == old_name@);
            }
        }
        return Err("目标不存在".to_owned());
    }
    assert(habit_names(habits@)[pos as int] == old_name@);
    let new_name = match &name {
        Some(n) => {
            let c = crate::note::sanitize_title(n.as_str());
            if chars_of(c.as_str()).len() > 0 {
                c
            } else {
                old_name.to_owned()
            }
        },
        None => old_name.to_owned(),
    };
    let nc = chars_of(new_name.as_str());
    if !chars_eq(&nc, &oc) {
        let ghost n2 = new_name@;
        let mut i: usize = 0;
        while i < habits.len()
            invariant
                0 <= i <= habits@.len(),
                nc@ == new_name@,
                n2 == new_name@,
                n2 != old_name@,
                n2 == (match name {
                    Some(n) => if crate::note::sanitize_title_spec(n@).len() > 0 {
                        crate::note::sanitize_title_spec(n@)
                    } else {
                        old_name@
                    },
                    None => old_name@,
                }),
                pos < habits@.len(),
                habits@[pos as int].name@ == old_name@,
                forall|j: int| 0 <= j < i ==> habits@[j].name@ != new_name@,
            decreases habits.len() - i,
        {
            if chars_eq(&chars_of(habits[i].name.as_str()), &nc) {
                assert(habit_names(habits@)[i as int] == new_name@);
                let mut msg = chars_of("已存在同名目标：");
                push_all(&mut msg, &nc);
                proof {
                    reveal_strlit("已存在同名目标：");
                    reveal_strlit("目标不存在");
                    assert(msg@.len() != "目标不存在"@.len());
                    assert(habit_names(habits@)[pos as int] == old_name@);
                }
                return Err(string_of(&msg));
            }
            i += 1;
        }
        assert(!habit_names(habits@).contains(new_name@)) by {
            if habit_names(habits@).contains(new_name@) {
                let j = choose|j: int| 0 <= j < habit_names(habits@).len() && habit_names(habits@)[j] == new_name@;
                assert(habits@[j].name@ == new_name@);
            }
        }
    }
    Ok((pos, new_name))
}

/// Sets the name and, where given, the color, note and archived flag of
/// the habit at `pos`.
pub fn set_habit(
    habits: &mut Vec<Habit>,
    pos: usize,
    name: String,
    color: Option<String>,
    note: Option<String>,
    archived: Option<bool>,
)
    requires
        pos < old(habits)@.len(),
    ensures
        final(habits)@.len() == old(habits)@.len(),
        forall|j: int| 0 <= j < old(habits)@.len() && j != pos ==> final(habits)@[j] == old(habits)@[j],
        final(habits)@[pos as int].name == name,
        final(habits)@[pos as int].color == (match color {
            Some(c) => c,
            None => old(habits)@[pos as int].color,
        }),
        final(habits)@[pos as int].note == (match note {
            Some(n) => n,
            None => old(habits)@[pos as int].note,
        }),
        final(habits)@[pos as int].archived == (match archived {
            Some(a) => a,
            None => old(habits)@[pos as int].archived,
        }),
        final(habits)@[pos as int].created == old(habits)@[pos as int].created,
{
    let h = copy_habit(&habits[pos]);
    let nh = Habit {
        name,
        color: match color {
            Some(c) => c,
            None => h.color,
        },
        created: h.created,
        note: match note {
            Some(n) => n,
            None => h.note,
        },
        archived: match archived {
            Some(a) => a,
            None => h.archived,
        },
    };
    habits.set(pos, nh);
}

/// The habits not named `name`, in order.
pub open spec fn without_name(hs: Seq<Habit>, name: Seq<char>) -> Seq<Habit>
    decreases hs.len(),
{
    if hs.len() == 0 {
        seq![]
    } else if hs.last().name@ == name {
        without_name(hs.drop_last(), name)
    } else {
        without_name(hs.drop_last(), name).push(hs.last())
    }
}

/// The list without the habits named `name`.
pub fn remove_habit(habits: &mut Vec<Habit>, name: &str)
    ensures
        final(habits)@ == without_name(old(habits)@, name@),
{
    let nc = chars_of(name);
    let ghost start = habits@;
    let mut kept: Vec<Habit> = Vec::new();
    let mut i: usize = 0;
    assert(start.take(0) =~= Seq::<Habit>::empty());
    while i < habits.len()
        invariant
            0 <= i <= habits@.len(),
            habits@ == start,
            nc@ == name@,
            kept@ == without_name(start.take(i as int), name@),
        decreases habits.len() - i,
    {
        assert(start.take(i + 1).drop_last() =~= start.take(i as int));
        assert(start.take(i + 1).last() == start[i as int]);
        if !chars_eq(&chars_of(habits[i].name.as_str()), &nc) {
            kept.push(copy_habit(&habits[i]));
        }
        i += 1;
    }
    assert(start.take(start.len() as int) =~= start);
    *habits = kept;
}

// ───────────────────────── laws ─────────────────────────

pub(crate) proof fn lemma_state_words()
    ensures
        state_of("done"@) == "done"@,
        state_of("missed"@) == "missed"@,
        state_of(""@) == ""@,
        "done"@ != "missed"@,
        "done"@ != ""@,
        "missed"@ != ""@,
{
    reveal_strlit("done");
    reveal_strlit("missed");
    reveal_strlit("");
    reveal_strlit("x");
    reveal_strlit("[x]");
    reveal_strlit("1");
    reveal_strlit("true");
    reveal_strlit("✅");
    reveal_strlit("✓");
    reveal_strlit("-");
    reveal_strlit("[-]");
    reveal_strlit("0");
    reveal_strlit("false");
    reveal_strlit("❌");
    reveal_strlit("✗");
    assert("done"@.len() == 4);
    assert("missed"@.len() == 6);
    assert(""@.len() == 0);
    assert(crate::text::trim_start("done"@) == "done"@);
    assert(crate::text::trim_end("done"@) == "done"@);
    assert(crate::text::trim_start("missed"@) == "missed"@);
    assert(crate::text::trim_end("missed"@) == "missed"@);
    assert(crate::text::trim_start(""@) == ""@);
    assert(crate::text::trim_end(""@) == ""@);
    assert(ascii_lower_seq("done"@) =~= "done"@);
    assert(ascii_lower_seq("missed"@) =~= "missed"@);
    assert(ascii_lower_seq(""@) =~= ""@);
    assert("missed"@ != "x"@);
    assert("missed"@ != "true"@);
    assert("missed"@ != "[x]"@);
    assert("missed"@ != "1"@);
    assert("missed"@ != "✅"@);
    assert("missed"@ != "✓"@);
    assert(""@ != "-"@);
    assert(""@ != "x"@);
    assert(""@ != "1"@);
    assert(""@ != "0"@);
    assert(""@ != "✅"@);
    assert(""@ != "✓"@);
    assert(""@ != "❌"@);
    assert(""@ != "✗"@);
    assert(""@ != "[x]"@);
    assert(""@ != "[-]"@);
    assert(""@ != "true"@);
    assert(""@ != "false"@);
}

/// A state read back is itself: reading a cell twice changes nothing.
pub proof fn law_state_of_is_idempotent(s: Seq<char>)
    ensures
        state_of(state_of(s)) == state_of(s),
{
    lemma_state_words();
}

/// What the month file writes for a state is the state itself, so a state
/// survives being written.
pub proof fn law_mark_keeps_states(s: Seq<char>)
    ensures
        mark_of(state_of(s)) == state_of(s),
        state_of(mark_of(state_of(s))) == state_of(s),
{
    lemma_state_words();
}

/// Three clicks bring a cell back to where it was: nothing → done →
/// missed → nothing.
pub proof fn law_three_clicks_come_back(s: Seq<char>)
    requires
        s == ""@ || s == "done"@ || s == "missed"@,
    ensures
        next_state_spec(next_state_spec(next_state_spec(s))) == s,
        next_state_spec(s) != s,
{
    lemma_state_words();
}

/// After a check-in, the cell holds the state the value stands for, and
/// every other cell is as it was.
pub proof fn law_check_in_reads_back(
    m: Map<Seq<char>, Map<Seq<char>, Seq<char>>>,
    date: Seq<char>,
    habit: Seq<char>,
    value: Seq<char>,
    d: Seq<char>,
    h: Seq<char>,
)
    ensures
        cell(set_cell_spec(m, date, habit, value), date, habit) == state_of(value),
        (d != date || h != habit) ==> cell(set_cell_spec(m, date, habit, value), d, h) == cell(m, d, h),
{
    let row = match row_entry(m, date) {
        Some(r) => r,
        None => Map::<Seq<char>, Seq<char>>::empty(),
    };
    let v = state_of(value);
    let row2 = if v == ""@ {
        row.remove(habit)
    } else {
        row.insert(habit, v)
    };
    if row2 == Map::<Seq<char>, Seq<char>>::empty() {
        if v != ""@ {
            assert(row2.dom().contains(habit));
        }
        if d == date && h != habit && row.dom().contains(h) {
            assert(row2.dom().contains(h));
        }
    }
}

/// A day marked `missed` today means there is no current streak.
pub proof fn law_missed_today_breaks_streak(s: Map<Seq<char>, Seq<char>>, created: Option<int>, today: int)
    requires
        state_on(s, today) == "missed"@,
    ensures
        streak_from(s, created, today, 0, 0) == 0,
{
    lemma_state_words();
}

/// A streak only counts days since the habit was created: created after
/// today, it is zero.
pub proof fn law_no_streak_before_creation(s: Map<Seq<char>, Seq<char>>, cd: int, today: int)
    requires
        today < cd,
    ensures
        streak_from(s, Some(cd), today, 0, 0) == 0,
{
}

/// More days in a row without a record than the tolerance, starting
/// today, mean there is no current streak.
pub proof fn law_silence_breaks_streak(s: Map<Seq<char>, Seq<char>>, created: Option<int>, today: int)
    requires
        forall|k: int| 0 <= k <= NONE_TOLERANCE ==> #[trigger] state_on(s, today - k) == ""@,
    ensures
        streak_from(s, created, today, 0, 0) == 0,
{
    lemma_state_words();
    assert(state_on(s, today - 0) == ""@);
    assert(state_on(s, today - 1) == ""@);
    assert(state_on(s, today - 2) == ""@);
    assert(state_on(s, today - 3) == ""@);
    assert(streak_from(s, created, today, 3, 3) == 0);
    assert(streak_from(s, created, today, 2, 2) == 0);
    assert(streak_from(s, created, today, 1, 1) == 0);
}

/// The current streak never counts more than the five years it looks back.
pub proof fn law_streak_is_bounded(s: Map<Seq<char>, Seq<char>>, created: Option<int>, today: int, k: int, run: int)
    requires
        0 <= k,
    ensures
        0 <= streak_from(s, created, today, k, run) <= if k <= 1826 { 1826 - k } else { 0 },
    decreases 1826 - k,
{
    if k <= 1825 {
        law_streak_is_bounded(s, created, today, k + 1, 0);
        law_streak_is_bounded(s, created, today, k + 1, run + 1);
    }
}
} // verus!
