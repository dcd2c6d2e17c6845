//! What a month file gives back when it is read: the states it was
//! written with, for every day it has a row for and every habit it has a
//! column for.

use vstd::prelude::*;
use crate::calendar::day_number;
use crate::habit::{
    cell, cell_at, cells_of, is_rule, lemma_state_words, mark_of, month_days_spec, last_row_spec, names_line,
    parse_month_spec, render_month_spec, row_cells, row_line, row_of, row_upto, rows_from, rule_line,
    scan_month, scan_step, state_of, MonthScan,
};
use crate::text::{
    find_char_from, is_ws, lemma_find_after, lemma_find_char_from, lemma_lines_cons, lines, no_char, split_char,
    strip_cr, trim, trim_end, trim_end_chars, trim_start, trim_start_chars,
};

verus! {

/// The text of `ls`, each line followed by a line break.
pub open spec fn unlines(ls: Seq<Seq<char>>) -> Seq<char>
    decreases ls.len(),
{
    if ls.len() == 0 {
        seq![]
    } else {
        ls[0] + seq!['\n'] + unlines(ls.drop_first())
    }
}

pub open spec fn lines_free(ls: Seq<Seq<char>>) -> bool {
    forall|i: int| 0 <= i < ls.len() ==> no_char(#[trigger] ls[i], '\n')
}

pub proof fn lemma_lines_unlines(ls: Seq<Seq<char>>, rest: Seq<char>)
    requires
        lines_free(ls),
    ensures
        lines(unlines(ls) + rest) == ls.map_values(|l: Seq<char>| strip_cr(l)) + lines(rest),
    decreases ls.len(),
{
    if ls.len() == 0 {
        assert(unlines(ls) + rest =~= rest);
        assert(ls.map_values(|l: Seq<char>| strip_cr(l)) + lines(rest) =~= lines(rest));
    } else {
        let t = ls.drop_first();
        assert(lines_free(t)) by {
            assert forall|i: int| 0 <= i < t.len() implies no_char(#[trigger] t[i], '\n') by {
                assert(t[i] == ls[i + 1]);
            }
        }
        lemma_lines_unlines(t, rest);
        assert(no_char(ls[0], '\n'));
        assert(unlines(ls) + rest =~= ls[0] + seq!['\n'] + (unlines(t) + rest));
        lemma_lines_cons(ls[0], unlines(t) + rest);
        assert(ls.map_values(|l: Seq<char>| strip_cr(l)) =~= seq![strip_cr(ls[0])] + t.map_values(
            |l: Seq<char>| strip_cr(l),
        ));
    }
}

// ───────────────────────── table lines ─────────────────────────

/// A cell as the table writes it: a space on each side.
pub open spec fn padded(c: Seq<char>) -> Seq<char> {
    seq![' '] + c + seq![' ']
}

/// The cells between the outer bars, joined by `|`.
pub open spec fn bar_join(cs: Seq<Seq<char>>) -> Seq<char>
    decreases cs.len(),
{
    if cs.len() == 0 {
        seq![]
    } else if cs.len() == 1 {
        padded(cs[0])
    } else {
        padded(cs[0]) + seq!['|'] + bar_join(cs.drop_first())
    }
}

/// A table line holding `cs`.
pub open spec fn bar_row(cs: Seq<Seq<char>>) -> Seq<char> {
    seq!['|'] + bar_join(cs) + seq!['|']
}

/// Text that a table cell gives back as written: no bar, no line break,
/// and no whitespace at either end.
pub open spec fn table_text(c: Seq<char>) -> bool {
    &&& no_char(c, '|')
    &&& no_char(c, '\n')
    &&& (c.len() == 0 || (!is_ws(c[0]) && !is_ws(c.last())))
}

pub open spec fn all_table_text(cs: Seq<Seq<char>>) -> bool {
    forall|i: int| 0 <= i < cs.len() ==> table_text(#[trigger] cs[i])
}

pub proof fn lemma_bar_join_push(cs: Seq<Seq<char>>, x: Seq<char>)
    requires
        cs.len() >= 1,
    ensures
        bar_join(cs.push(x)) == bar_join(cs) + seq!['|'] + padded(x),
    decreases cs.len(),
{
    if cs.len() == 1 {
        assert(cs.push(x).drop_first() =~= seq![x]);
        assert(cs.push(x)[0] == cs[0]);
        assert(bar_join(seq![x]) == padded(x));
        assert(bar_join(cs.push(x)) =~= bar_join(cs) + seq!['|'] + padded(x));
    } else {
        lemma_bar_join_push(cs.drop_first(), x);
        assert(cs.push(x).drop_first() =~= cs.drop_first().push(x));
        assert(bar_join(cs.push(x)) =~= bar_join(cs) + seq!['|'] + padded(x));
    }
}

pub proof fn lemma_bar_row_push(cs: Seq<Seq<char>>, x: Seq<char>)
    requires
        cs.len() >= 1,
    ensures
        bar_row(cs.push(x)) == bar_row(cs) + padded(x) + seq!['|'],
{
    lemma_bar_join_push(cs, x);
    assert(bar_row(cs.push(x)) =~= bar_row(cs) + padded(x) + seq!['|']);
}

proof fn lemma_bar_join_free(cs: Seq<Seq<char>>, c: char)
    requires
        forall|i: int| 0 <= i < cs.len() ==> no_char(#[trigger] cs[i], c),
        c != ' ',
        c != '|',
    ensures
        no_char(bar_join(cs), c),
    decreases cs.len(),
{
    if cs.len() > 1 {
        let t = cs.drop_first();
        assert forall|i: int| 0 <= i < t.len() implies no_char(#[trigger] t[i], c) by {
            assert(t[i] == cs[i + 1]);
        }
        lemma_bar_join_free(t, c);
        assert(no_char(cs[0], c));
    } else if cs.len() == 1 {
        assert(no_char(cs[0], c));
    }
}

proof fn lemma_trim_padded(c: Seq<char>)
    requires
        table_text(c),
    ensures
        trim(padded(c)) == c,
{
    let p = padded(c);
    assert(is_ws(' ')) by {
        assert((' ' as u32) == 32);
    }
    assert(p.drop_first() =~= c + seq![' ']);
    assert(trim_start(p) == trim_start(c + seq![' ']));
    if c.len() == 0 {
        assert(c + seq![' '] =~= seq![' ']);
        assert(seq![' '].drop_first() =~= Seq::<char>::empty());
        assert(trim_start(seq![' ']) == trim_start(Seq::<char>::empty()));
    } else {
        assert((c + seq![' '])[0] == c[0]);
        assert(trim_start(c + seq![' ']) == c + seq![' ']);
        assert((c + seq![' ']).drop_last() =~= c);
        assert(trim_end(c + seq![' ']) == trim_end(c));
    }
}

proof fn lemma_split_bar_join(cs: Seq<Seq<char>>)
    requires
        cs.len() >= 1,
        all_table_text(cs),
    ensures
        split_char(bar_join(cs), '|') == cs.map_values(|c: Seq<char>| padded(c)),
    decreases cs.len(),
{
    let p0 = padded(cs[0]);
    assert(table_text(cs[0]));
    assert(no_char(p0, '|'));
    if cs.len() == 1 {
        lemma_find_char_from(p0, '|', 0);
        assert(find_char_from(p0, '|', 0) is None);
        assert(cs.map_values(|c: Seq<char>| padded(c)) =~= seq![p0]);
    } else {
        let t = cs.drop_first();
        assert(all_table_text(t)) by {
            assert forall|i: int| 0 <= i < t.len() implies table_text(#[trigger] t[i]) by {
                assert(t[i] == cs[i + 1]);
            }
        }
        lemma_split_bar_join(t);
        let s = bar_join(cs);
        assert(s == p0 + seq!['|'] + bar_join(t));
        lemma_find_after(p0, bar_join(t), '|');
        assert(s.take(p0.len() as int) =~= p0);
        assert(s.skip(p0.len() + 1int) =~= bar_join(t));
        assert(cs.map_values(|c: Seq<char>| padded(c)) =~= seq![p0] + t.map_values(
            |c: Seq<char>| padded(c),
        ));
    }
}

/// The cells a table line gives back are the ones it was written with.
pub proof fn lemma_cells_of_bar_row(cs: Seq<Seq<char>>)
    requires
        cs.len() >= 1,
        all_table_text(cs),
    ensures
        crate::habit::cells_of(bar_row(cs)) == cs,
        trim(bar_row(cs)) == bar_row(cs),
        no_char(bar_row(cs), '\n'),
        strip_cr(bar_row(cs)) == bar_row(cs),
{
    let r = bar_row(cs);
    let j = bar_join(cs);
    let bar = seq!['|'];
    // the line neither starts nor ends with whitespace
    assert(!is_ws('|')) by {
        assert(('|' as u32) == 124);
    }
    assert(trim_start(r) == r);
    assert(trim_end(r) == r);
    // the outer bars go, and nothing more
    if cs.len() == 1 {
        assert(j == padded(cs[0]));
    } else {
        assert(j == padded(cs[0]) + seq!['|'] + bar_join(cs.drop_first()));
    }
    assert(j.len() > 0 && j[0] == ' ');
    assert(j.last() == ' ') by {
        if cs.len() > 1 {
            let t = cs.drop_first();
            assert(t.len() >= 1);
            lemma_bar_join_last(t);
        }
    }
    assert(bar.contains('|')) by {
        assert(bar[0] == '|');
    }
    assert(!bar.contains(' ')) by {
        if bar.contains(' ') {
            let k = choose|k: int| 0 <= k < bar.len() && bar[k] == ' ';
        }
    }
    assert(r.drop_last() =~= bar + j);
    assert(trim_end_chars(r, bar) == trim_end_chars(bar + j, bar));
    assert((bar + j).last() == ' ');
    assert(trim_end_chars(bar + j, bar) == bar + j);
    assert((bar + j).drop_first() =~= j);
    assert(trim_start_chars(bar + j, bar) == trim_start_chars(j, bar));
    assert(trim_start_chars(j, bar) == j);
    lemma_split_bar_join(cs);
    assert(cs.map_values(|c: Seq<char>| padded(c)).map_values(|c: Seq<char>| trim(c)) =~= cs) by {
        assert forall|i: int| 0 <= i < cs.len() implies cs.map_values(|c: Seq<char>| padded(c)).map_values(
            |c: Seq<char>| trim(c),
        )[i] == cs[i] by {
            lemma_trim_padded(cs[i]);
        }
    }
    // no line break inside
    assert forall|i: int| 0 <= i < cs.len() implies no_char(#[trigger] cs[i], '\n') by {
        assert(table_text(cs[i]));
    }
    lemma_bar_join_free(cs, '\n');
    assert(no_char(r, '\n'));
    assert(r.last() == '|');
}

proof fn lemma_bar_join_last(cs: Seq<Seq<char>>)
    requires
        cs.len() >= 1,
    ensures
        bar_join(cs).len() > 0,
        bar_join(cs).last() == ' ',
    decreases cs.len(),
{
    if cs.len() > 1 {
        lemma_bar_join_last(cs.drop_first());
    }
}

// ───────────────────────── the lines a month file is written with ─────────────────────────

/// The header cells: the day column, then one per habit.
pub open spec fn header_cells(names: Seq<Seq<char>>) -> Seq<Seq<char>> {
    seq!["日期"@] + names
}

/// What day `d`'s row writes for each habit.
pub open spec fn marks_of(
    d: Seq<char>,
    names: Seq<Seq<char>>,
    data: Map<Seq<char>, Map<Seq<char>, Seq<char>>>,
) -> Seq<Seq<char>> {
    names.map_values(|h: Seq<char>| mark_of(cell(data, d, h)))
}

pub open spec fn dashes(n: nat) -> Seq<Seq<char>> {
    Seq::new(n, |i: int| "---"@)
}

proof fn lemma_names_line(names: Seq<Seq<char>>)
    ensures
        names_line(names) == bar_row(header_cells(names)),
    decreases names.len(),
{
    reveal_strlit("| 日期 |");
    reveal_strlit("日期");
    reveal_strlit(" ");
    reveal_strlit(" |");
    if names.len() == 0 {
        assert(header_cells(names) =~= seq!["日期"@]);
        assert(bar_row(seq!["日期"@]) =~= "| 日期 |"@);
    } else {
        let dl = names.drop_last();
        lemma_names_line(dl);
        assert(header_cells(names) =~= header_cells(dl).push(names.last()));
        lemma_bar_row_push(header_cells(dl), names.last());
        assert(names_line(names) =~= bar_row(header_cells(names)));
    }
}

proof fn lemma_row_text(
    d: Seq<char>,
    names: Seq<Seq<char>>,
    data: Map<Seq<char>, Map<Seq<char>, Seq<char>>>,
)
    ensures
        "| "@ + d + " |"@ + row_cells(d, names, data) == bar_row(seq![d] + marks_of(d, names, data)),
    decreases names.len(),
{
    reveal_strlit("| ");
    reveal_strlit(" ");
    reveal_strlit(" |");
    if names.len() == 0 {
        assert(marks_of(d, names, data) =~= Seq::<Seq<char>>::empty());
        assert(seq![d] + marks_of(d, names, data) =~= seq![d]);
        assert("| "@ + d + " |"@ + row_cells(d, names, data) =~= bar_row(seq![d]));
    } else {
        let dl = names.drop_last();
        lemma_row_text(d, dl, data);
        assert(seq![d] + marks_of(d, names, data) =~= (seq![d] + marks_of(d, dl, data)).push(
            mark_of(cell(data, d, names.last())),
        ));
        lemma_bar_row_push(seq![d] + marks_of(d, dl, data), mark_of(cell(data, d, names.last())));
        assert("| "@ + d + " |"@ + row_cells(d, names, data) =~= bar_row(
            seq![d] + marks_of(d, names, data),
        ));
    }
}

proof fn lemma_rule_line(n: nat)
    ensures
        rule_line(n) == seq!['\n'] + bar_row(dashes(n + 1)),
    decreases n,
{
    reveal_strlit("\n| --- |");
    reveal_strlit(" --- |");
    reveal_strlit("---");
    if n == 0 {
        assert(dashes(1) =~= seq!["---"@]);
        assert(rule_line(0) =~= seq!['\n'] + bar_row(dashes(1)));
    } else {
        let m = (n - 1) as nat;
        lemma_rule_line(m);
        assert(dashes(n + 1) =~= dashes(m + 1).push("---"@));
        lemma_bar_row_push(dashes(m + 1), "---"@);
        assert(rule_line(n) =~= seq!['\n'] + bar_row(dashes(n + 1)));
    }
}

/// The days that get a row, in the order they are written: those that
/// read as days, up to the first one past `end`.
pub open spec fn rendered_days(days: Seq<Seq<char>>, end: int) -> Seq<Seq<char>>
    decreases days.len(),
{
    if days.len() == 0 {
        seq![]
    } else {
        match day_number(days[0]) {
            None => rendered_days(days.drop_first(), end),
            Some(n) => if n > end {
                seq![]
            } else {
                seq![days[0]] + rendered_days(days.drop_first(), end)
            },
        }
    }
}

/// The days a month file is written with a row for, as of `today`.
pub open spec fn written_days(month: Seq<char>, today: int) -> Seq<Seq<char>> {
    match last_row_spec(month, today) {
        Some(end) => rendered_days(month_days_spec(month), end),
        None => seq![],
    }
}

pub open spec fn row_text(
    d: Seq<char>,
    names: Seq<Seq<char>>,
    data: Map<Seq<char>, Map<Seq<char>, Seq<char>>>,
) -> Seq<char> {
    bar_row(seq![d] + marks_of(d, names, data))
}

pub open spec fn row_texts(
    ds: Seq<Seq<char>>,
    names: Seq<Seq<char>>,
    data: Map<Seq<char>, Map<Seq<char>, Seq<char>>>,
) -> Seq<Seq<char>> {
    ds.map_values(|d: Seq<char>| row_text(d, names, data))
}

proof fn lemma_rows_from(
    days: Seq<Seq<char>>,
    end: int,
    names: Seq<Seq<char>>,
    data: Map<Seq<char>, Map<Seq<char>, Seq<char>>>,
)
    ensures
        rows_from(days, end, names, data) == unlines(row_texts(rendered_days(days, end), names, data)),
    decreases days.len(),
{
    reveal_strlit("\n");
    if days.len() == 0 {
        assert(row_texts(rendered_days(days, end), names, data) =~= Seq::<Seq<char>>::empty());
    } else {
        let t = days.drop_first();
        lemma_rows_from(t, end, names, data);
        match day_number(days[0]) {
            None => {},
            Some(n) => {
                if n > end {
                    assert(row_texts(rendered_days(days, end), names, data) =~= Seq::<Seq<char>>::empty());
                } else {
                    let rt = row_texts(rendered_days(days, end), names, data);
                    assert(rt =~= seq![row_text(days[0], names, data)] + row_texts(rendered_days(t, end), names, data));
                    assert(rt.drop_first() =~= row_texts(rendered_days(t, end), names, data));
                    lemma_row_text(days[0], names, data);
                    assert(row_line(days[0], names, data) =~= row_text(days[0], names, data) + seq!['\n']);
                    assert(rows_from(days, end, names, data) =~= unlines(rt));
                }
            },
        }
    }
}

// ───────────────────────── reading the lines back ─────────────────────────

/// Reading `ls` line by line from the front, starting from `st`.
pub open spec fn scan_front(st: MonthScan, ls: Seq<Seq<char>>) -> MonthScan
    decreases ls.len(),
{
    if ls.len() == 0 {
        st
    } else {
        scan_front(scan_step(st, ls[0]), ls.drop_first())
    }
}

proof fn lemma_scan_front_push(st: MonthScan, ls: Seq<Seq<char>>, x: Seq<char>)
    ensures
        scan_front(st, ls.push(x)) == scan_step(scan_front(st, ls), x),
    decreases ls.len(),
{
    if ls.len() == 0 {
        assert(ls.push(x).drop_first() =~= Seq::<Seq<char>>::empty());
        assert(ls.push(x)[0] == x);
        assert(scan_front(scan_step(st, x), Seq::<Seq<char>>::empty()) == scan_step(st, x));
        assert(scan_front(st, ls) == st);
    } else {
        assert(ls.push(x).drop_first() =~= ls.drop_first().push(x));
        assert(ls.push(x)[0] == ls[0]);
        lemma_scan_front_push(scan_step(st, ls[0]), ls.drop_first(), x);
    }
}

proof fn lemma_scan_month_front(ls: Seq<Seq<char>>)
    ensures
        scan_month(ls) == scan_front((seq![], false, Map::empty()), ls),
    decreases ls.len(),
{
    if ls.len() > 0 {
        lemma_scan_month_front(ls.drop_last());
        lemma_scan_front_push((seq![], false, Map::empty()), ls.drop_last(), ls.last());
        assert(ls.drop_last().push(ls.last()) =~= ls);
    }
}

proof fn lemma_scan_front_append(st: MonthScan, a: Seq<Seq<char>>, b: Seq<Seq<char>>)
    ensures
        scan_front(st, a + b) == scan_front(scan_front(st, a), b),
    decreases a.len(),
{
    if a.len() == 0 {
        assert(a + b =~= b);
    } else {
        assert((a + b).drop_first() =~= a.drop_first() + b);
        assert((a + b)[0] == a[0]);
        lemma_scan_front_append(scan_step(st, a[0]), a.drop_first(), b);
    }
}

/// What a row gives back for day `d`: each habit's mark.
pub open spec fn written_row(
    names: Seq<Seq<char>>,
    data: Map<Seq<char>, Map<Seq<char>, Seq<char>>>,
    d: Seq<char>,
) -> Map<Seq<char>, Seq<char>> {
    Map::new(|h: Seq<char>| names.contains(h), |h: Seq<char>| mark_of(cell(data, d, h)))
}

/// The table written for days `ds`.
pub open spec fn written_table(
    ds: Seq<Seq<char>>,
    names: Seq<Seq<char>>,
    data: Map<Seq<char>, Map<Seq<char>, Seq<char>>>,
) -> Map<Seq<char>, Map<Seq<char>, Seq<char>>> {
    Map::new(|d: Seq<char>| ds.contains(d), |d: Seq<char>| written_row(names, data, d))
}

proof fn lemma_marks_are_states(x: Seq<char>)
    ensures
        state_of(mark_of(x)) == mark_of(x),
        table_text(mark_of(x)),
{
    lemma_state_words();
    reveal_strlit("done");
    reveal_strlit("missed");
    reveal_strlit("");
    assert(!is_ws('d')) by {
        assert(('d' as u32) == 100);
    }
    assert(!is_ws('e')) by {
        assert(('e' as u32) == 101);
    }
    assert(!is_ws('m')) by {
        assert(('m' as u32) == 109);
    }
    if x == "done"@ {
        assert(no_char("done"@, '|'));
        assert(no_char("done"@, '\n'));
    } else if x == "missed"@ {
        assert(no_char("missed"@, '|'));
        assert(no_char("missed"@, '\n'));
    }
}

proof fn lemma_row_upto(
    d: Seq<char>,
    names: Seq<Seq<char>>,
    data: Map<Seq<char>, Map<Seq<char>, Seq<char>>>,
    k: int,
)
    requires
        1 <= k <= names.len() + 1,
    ensures
        row_upto(header_cells(names), seq![d] + marks_of(d, names, data), k) == Map::new(
            |h: Seq<char>| names.take(k - 1).contains(h),
            |h: Seq<char>| mark_of(cell(data, d, h)),
        ),
    decreases k,
{
    let header = header_cells(names);
    let cells = seq![d] + marks_of(d, names, data);
    if k == 1 {
        assert(Map::new(
            |h: Seq<char>| names.take(0).contains(h),
            |h: Seq<char>| mark_of(cell(data, d, h)),
        ) =~= Map::<Seq<char>, Seq<char>>::empty());
    } else {
        lemma_row_upto(d, names, data, k - 1);
        let h0 = names[k - 2];
        assert(header[k - 1] == h0);
        assert(cell_at(cells, k - 1) == mark_of(cell(data, d, h0)));
        lemma_marks_are_states(cell(data, d, h0));
        assert(names.take(k - 1) =~= names.take(k - 2).push(h0));
        let a = names.take(k - 2);
        let b = names.take(k - 1);
        assert forall|h: Seq<char>| b.contains(h) <==> (a.contains(h) || h == h0) by {
            if a.contains(h) {
                let j = choose|j: int| 0 <= j < a.len() && #[trigger] a[j] == h;
                assert(b[j] == h);
            }
            if h == h0 {
                assert(b[k - 2] == h);
            }
            if b.contains(h) && h != h0 {
                let j = choose|j: int| 0 <= j < b.len() && #[trigger] b[j] == h;
                assert(a[j] == h);
            }
        }
        assert(row_upto(header, cells, k) =~= Map::new(
            |h: Seq<char>| names.take(k - 1).contains(h),
            |h: Seq<char>| mark_of(cell(data, d, h)),
        ));
    }
}

proof fn lemma_row_of(
    d: Seq<char>,
    names: Seq<Seq<char>>,
    data: Map<Seq<char>, Map<Seq<char>, Seq<char>>>,
)
    ensures
        row_of(header_cells(names), seq![d] + marks_of(d, names, data)) == written_row(names, data, d),
{
    lemma_row_upto(d, names, data, names.len() + 1int);
    assert(names.take(names.len() as int) =~= names);
    assert(row_of(header_cells(names), seq![d] + marks_of(d, names, data)) =~= written_row(names, data, d));
}

/// A day text that a row gives back: table text of at least 8 bytes.
pub open spec fn day_cell(d: Seq<char>) -> bool {
    table_text(d) && crate::text::byte_len(d) >= 8
}

proof fn lemma_row_step(
    names: Seq<Seq<char>>,
    data: Map<Seq<char>, Map<Seq<char>, Seq<char>>>,
    d: Seq<char>,
    acc: Map<Seq<char>, Map<Seq<char>, Seq<char>>>,
)
    requires
        all_table_text(names),
        day_cell(d),
    ensures
        scan_step((header_cells(names), true, acc), row_text(d, names, data)) == (
            header_cells(names),
            true,
            acc.insert(d, written_row(names, data, d)),
        ),
{
    let cs = seq![d] + marks_of(d, names, data);
    assert(all_table_text(cs)) by {
        assert forall|i: int| 0 <= i < cs.len() implies table_text(#[trigger] cs[i]) by {
            if i > 0 {
                lemma_marks_are_states(cell(data, d, names[i - 1]));
            }
        }
    }
    lemma_cells_of_bar_row(cs);
    lemma_row_of(d, names, data);
    let r = row_text(d, names, data);
    assert(r[0] == '|');
    assert(header_cells(names).len() > 0);
}

proof fn lemma_scan_rows(
    names: Seq<Seq<char>>,
    data: Map<Seq<char>, Map<Seq<char>, Seq<char>>>,
    ds: Seq<Seq<char>>,
    acc: Map<Seq<char>, Map<Seq<char>, Seq<char>>>,
)
    requires
        all_table_text(names),
        forall|i: int| 0 <= i < ds.len() ==> day_cell(#[trigger] ds[i]),
    ensures
        scan_front((header_cells(names), true, acc), row_texts(ds, names, data)) == (
            header_cells(names),
            true,
            acc.union_prefer_right(written_table(ds, names, data)),
        ),
    decreases ds.len(),
{
    let rt = row_texts(ds, names, data);
    if ds.len() == 0 {
        assert(acc.union_prefer_right(written_table(ds, names, data)) =~= acc);
    } else {
        let d0 = ds[0];
        let t = ds.drop_first();
        assert(day_cell(d0));
        lemma_row_step(names, data, d0, acc);
        let acc1 = acc.insert(d0, written_row(names, data, d0));
        assert(rt[0] == row_text(d0, names, data));
        assert(rt.drop_first() =~= row_texts(t, names, data));
        assert forall|i: int| 0 <= i < t.len() implies day_cell(#[trigger] t[i]) by {
            assert(t[i] == ds[i + 1]);
        }
        lemma_scan_rows(names, data, t, acc1);
        assert forall|d: Seq<char>| #[trigger] ds.contains(d) <==> (d == d0 || t.contains(d)) by {
            if t.contains(d) {
                let j = choose|j: int| 0 <= j < t.len() && #[trigger] t[j] == d;
                assert(ds[j + 1] == d);
            }
            if d == d0 {
                assert(ds[0] == d);
            }
            if ds.contains(d) && d != d0 {
                let j = choose|j: int| 0 <= j < ds.len() && #[trigger] ds[j] == d;
                assert(j != 0);
                assert(t[j - 1] == d);
            }
        }
        assert(acc1.union_prefer_right(written_table(t, names, data)) =~= acc.union_prefer_right(
            written_table(ds, names, data),
        ));
    }
}


proof fn lemma_unlines_append(a: Seq<Seq<char>>, b: Seq<Seq<char>>)
    ensures
        unlines(a + b) == unlines(a) + unlines(b),
    decreases a.len(),
{
    if a.len() == 0 {
        assert(a + b =~= b);
        assert(unlines(a) + unlines(b) =~= unlines(b));
    } else {
        lemma_unlines_append(a.drop_first(), b);
        assert((a + b).drop_first() =~= a.drop_first() + b);
        assert((a + b)[0] == a[0]);
        assert(unlines(a + b) =~= unlines(a) + unlines(b));
    }
}

proof fn lemma_rendered_sub(days: Seq<Seq<char>>, end: int)
    ensures
        forall|i: int| 0 <= i < rendered_days(days, end).len() ==> days.contains(#[trigger] rendered_days(days, end)[i]),
    decreases days.len(),
{
    if days.len() > 0 {
        let t = days.drop_first();
        lemma_rendered_sub(t, end);
        let r = rendered_days(days, end);
        let rt = rendered_days(t, end);
        assert forall|i: int| 0 <= i < r.len() implies days.contains(#[trigger] r[i]) by {
            match day_number(days[0]) {
                None => {
                    assert(r[i] == rt[i]);
                    assert(t.contains(rt[i]));
                    let j = choose|j: int| 0 <= j < t.len() && #[trigger] t[j] == rt[i];
                    assert(days[j + 1] == r[i]);
                },
                Some(n) => {
                    if i == 0 {
                        assert(days[0] == r[i]);
                    } else {
                        assert(r[i] == rt[i - 1]);
                        assert(t.contains(rt[i - 1]));
                        let j = choose|j: int| 0 <= j < t.len() && #[trigger] t[j] == rt[i - 1];
                        assert(days[j + 1] == r[i]);
                    }
                },
            }
        }
    }
}

/// A line that is no table line leaves the reading as it was.
proof fn lemma_plain_line(st: MonthScan, l: Seq<char>)
    requires
        l.len() == 0 || (!is_ws(l[0]) && !is_ws(l.last()) && l[0] != '|'),
    ensures
        scan_step(st, l) == st,
{
    if l.len() > 0 {
        assert(trim_start(l) == l);
        assert(trim_end(l) == l);
    } else {
        assert(trim_start(l) == l);
        assert(trim_end(l) == l);
    }
}

proof fn lemma_head_lines(names: Seq<Seq<char>>, h: Seq<char>, q: Seq<char>)
    requires
        all_table_text(names),
        h.len() > 0 && !is_ws(h[0]) && !is_ws(h.last()) && h[0] != '|',
        q.len() > 0 && !is_ws(q[0]) && !is_ws(q.last()) && q[0] != '|',
    ensures
        scan_front(
            (seq![], false, Map::empty()),
            seq![seq![], h, seq![], q, seq![], bar_row(header_cells(names)), bar_row(dashes(names.len() + 1))],
        ) == (header_cells(names), true, Map::<Seq<char>, Map<Seq<char>, Seq<char>>>::empty()),
{
    let init: MonthScan = (seq![], false, Map::empty());
    let nl = bar_row(header_cells(names));
    let rl = bar_row(dashes(names.len() + 1));
    let ls = seq![seq![], h, seq![], q, seq![], nl, rl];
    reveal_strlit("日期");
    reveal_strlit("---");
    assert(!is_ws('-')) by {
        assert(('-' as u32) == 45);
    }
    assert(!is_ws('日')) by {
        assert(('日' as u32) == 0x65E5);
    }
    assert(!is_ws('期')) by {
        assert(('期' as u32) == 0x671F);
    }
    assert(all_table_text(header_cells(names))) by {
        assert forall|i: int| 0 <= i < header_cells(names).len() implies table_text(#[trigger] header_cells(names)[i]) by {
            if i == 0 {
                assert(header_cells(names)[0] == "日期"@);
                assert(no_char("日期"@, '|'));
                assert(no_char("日期"@, '\n'));
            } else {
                assert(header_cells(names)[i] == names[i - 1]);
            }
        }
    }
    let ds = dashes(names.len() + 1);
    assert(all_table_text(ds)) by {
        assert forall|i: int| 0 <= i < ds.len() implies table_text(#[trigger] ds[i]) by {
            assert(ds[i] == "---"@);
            assert(no_char("---"@, '|'));
            assert(no_char("---"@, '\n'));
        }
    }
    lemma_cells_of_bar_row(header_cells(names));
    lemma_cells_of_bar_row(ds);
    assert(is_rule(ds)) by {
        assert forall|i: int, j: int| 0 <= i < ds.len() && 0 <= j < ds[i].len() implies crate::habit::rule_char(#[trigger] ds[i][j]) by {
            assert(ds[i] == "---"@);
        }
    }
    lemma_plain_line(init, seq![]);
    lemma_plain_line(init, h);
    lemma_plain_line(init, q);
    let s5 = scan_step(init, nl);
    assert(nl[0] == '|');
    assert(s5 == (header_cells(names), false, Map::<Seq<char>, Map<Seq<char>, Seq<char>>>::empty()));
    assert(rl[0] == '|');
    let s6 = scan_step(s5, rl);
    assert(s6 == (header_cells(names), true, Map::<Seq<char>, Map<Seq<char>, Seq<char>>>::empty()));
    assert(ls.drop_first() =~= seq![h, seq![], q, seq![], nl, rl]);
    assert(ls.drop_first().drop_first() =~= seq![seq![], q, seq![], nl, rl]);
    assert(ls.drop_first().drop_first().drop_first() =~= seq![q, seq![], nl, rl]);
    assert(ls.drop_first().drop_first().drop_first().drop_first() =~= seq![seq![], nl, rl]);
    assert(ls.drop_first().drop_first().drop_first().drop_first().drop_first() =~= seq![nl, rl]);
    assert(seq![nl, rl].drop_first() =~= seq![rl]);
    assert(seq![rl].drop_first() =~= Seq::<Seq<char>>::empty());
    assert(scan_front(s6, Seq::<Seq<char>>::empty()) == s6);
    assert(scan_front(s5, seq![rl]) == s6);
    assert(scan_front(init, seq![nl, rl]) == s6);
    assert(scan_front(init, seq![seq![], nl, rl]) == s6);
    assert(scan_front(init, seq![q, seq![], nl, rl]) == s6);
    assert(scan_front(init, seq![seq![], q, seq![], nl, rl]) == s6);
    assert(scan_front(init, seq![h, seq![], q, seq![], nl, rl]) == s6);
}


proof fn lemma_first_close(t: Seq<char>, from: int, j: int)
    requires
        0 <= from <= j < t.len(),
        forall|k: int| from <= k < j ==> #[trigger] crate::note::close_at(t, k) is None,
        crate::note::close_at(t, j) is Some,
    ensures
        crate::note::first_close(t, from) == Some(j),
    decreases j - from,
{
    if from < j {
        lemma_first_close(t, from + 1, j);
    }
}

/// The frontmatter a month file opens with is passed over whole.
proof fn lemma_front_matter(month: Seq<char>, body: Seq<char>)
    requires
        no_char(month, '\n'),
    ensures
        crate::note::split_fm_spec("---\nmonth: \""@ + month + "\"\n---\n"@ + body).1 == body,
{
    let l1 = "---\nmonth: \""@;
    let l2 = "\"\n---\n"@;
    reveal_strlit("---\nmonth: \"");
    reveal_strlit("\"\n---\n");
    reveal_strlit("---\n");
    reveal_strlit("---\r\n");
    reveal_strlit("\r\n---");
    reveal_strlit("\n---");
    let t = l1 + month + l2 + body;
    let j: int = month.len() + 13int;
    assert(l1.len() == 12);
    assert(l2.len() == 6);
    assert(t[0] == '-');
    assert(crate::note::strip_bom(t) == t);
    assert(t.take(4) =~= "---\n"@);
    assert(crate::note::fm_open(t) == Some(4int));
    assert forall|k: int| 4 <= k < j implies t[k] != '\n' by {
        if k < 12 {
            assert(t[k] == l1[k]);
        } else if k < 12 + month.len() {
            assert(t[k] == month[k - 12]);
        } else {
            assert(t[k] == l2[0]);
        }
    }
    assert(t[j - 1] == '"');
    assert(t[j] == '\n');
    assert(t[j + 1] == '-' && t[j + 2] == '-' && t[j + 3] == '-');
    assert(t[j + 4] == '\n');
    assert forall|k: int| 4 <= k < j implies #[trigger] crate::note::close_at(t, k) is None by {
        if crate::text::occurs_at(t, "\r\n---"@, k) {
            assert(t.subrange(k, k + 5)[0] == t[k]);
            assert(t.subrange(k, k + 5)[1] == t[k + 1]);
            assert("\r\n---"@[1] == '\n');
            assert("\r\n---"@[0] == '\r');
        }
        if crate::text::occurs_at(t, "\n---"@, k) {
            assert(t.subrange(k, k + 4)[0] == t[k]);
            assert("\n---"@[0] == '\n');
        }
    }
    assert(!crate::text::occurs_at(t, "\r\n---"@, j)) by {
        if crate::text::occurs_at(t, "\r\n---"@, j) {
            assert(t.subrange(j, j + 5)[0] == t[j]);
        }
    }
    assert(t.subrange(j, j + 4) =~= "\n---"@);
    assert(crate::note::close_at(t, j) == Some(j + 4));
    lemma_first_close(t, 4, j);
    assert(crate::note::blank_run(t, j + 4) == j + 4);
    assert(crate::note::fm_body_start(t, j + 4) == j + 5);
    assert(t.skip(j + 5) =~= body);
}


/// The heading of a month file: `# <month> 打卡记录`.
pub open spec fn heading(month: Seq<char>) -> Seq<char> {
    "# "@ + month + " 打卡记录"@
}

/// The lines of a month file after its frontmatter: the heading and the
/// note under it, the header and its rule, then one row per day.
pub open spec fn file_lines(
    month: Seq<char>,
    names: Seq<Seq<char>>,
    data: Map<Seq<char>, Map<Seq<char>, Seq<char>>>,
    today: int,
) -> Seq<Seq<char>> {
    seq![
        seq![],
        heading(month),
        seq![],
        "> 由 mnesphere 维护。取值只有三种：`done` 做到了、`missed` 没做到、留空 未打卡。"@,
        seq![],
        bar_row(header_cells(names)),
        bar_row(dashes(names.len() + 1)),
    ] + row_texts(written_days(month, today), names, data)
}

proof fn lemma_unlines_seven(ls: Seq<Seq<char>>)
    requires
        ls.len() == 7,
    ensures
        unlines(ls) == ls[0] + seq!['\n'] + ls[1] + seq!['\n'] + ls[2] + seq!['\n'] + ls[3] + seq!['\n'] + ls[4]
            + seq!['\n'] + ls[5] + seq!['\n'] + ls[6] + seq!['\n'],
{
    reveal_with_fuel(unlines, 8);
    let l1 = ls.drop_first();
    let l2 = l1.drop_first();
    let l3 = l2.drop_first();
    let l4 = l3.drop_first();
    let l5 = l4.drop_first();
    let l6 = l5.drop_first();
    let l7 = l6.drop_first();
    assert(l7.len() == 0);
    assert(unlines(l6) =~= ls[6] + seq!['\n']);
    assert(unlines(l5) =~= ls[5] + seq!['\n'] + ls[6] + seq!['\n']);
    assert(unlines(l4) =~= ls[4] + seq!['\n'] + ls[5] + seq!['\n'] + ls[6] + seq!['\n']);
    assert(unlines(l3) =~= ls[3] + seq!['\n'] + ls[4] + seq!['\n'] + ls[5] + seq!['\n'] + ls[6] + seq!['\n']);
    assert(unlines(l2) =~= ls[2] + seq!['\n'] + ls[3] + seq!['\n'] + ls[4] + seq!['\n'] + ls[5] + seq!['\n'] + ls[6]
        + seq!['\n']);
    assert(unlines(l1) =~= ls[1] + seq!['\n'] + ls[2] + seq!['\n'] + ls[3] + seq!['\n'] + ls[4] + seq!['\n'] + ls[5]
        + seq!['\n'] + ls[6] + seq!['\n']);
}

proof fn lemma_head_literals()
    ensures
        " 打卡记录\n\n> 由 mnesphere 维护。取值只有三种：`done` 做到了、`missed` 没做到、留空 未打卡。\n\n"@ == " 打卡记录"@ + seq!['\n', '\n'] + "> 由 mnesphere 维护。取值只有三种：`done` 做到了、`missed` 没做到、留空 未打卡。"@ + seq!['\n', '\n'],
        "\"\n---\n\n# "@ == "\"\n---\n"@ + seq!['\n', '#', ' '],
        "# "@ == seq!['#', ' '],
        "\n"@ == seq!['\n'],
{
    reveal_strlit("\n");
    reveal_strlit("# ");
    reveal_strlit(" 打卡记录");
    reveal_strlit(" 打卡记录\n\n> 由 mnesphere 维护。取值只有三种：`done` 做到了、`missed` 没做到、留空 未打卡。\n\n");
    reveal_strlit("> 由 mnesphere 维护。取值只有三种：`done` 做到了、`missed` 没做到、留空 未打卡。");
    reveal_strlit("\"\n---\n\n# ");
    reveal_strlit("\"\n---\n");
    assert(" 打卡记录\n\n> 由 mnesphere 维护。取值只有三种：`done` 做到了、`missed` 没做到、留空 未打卡。\n\n"@ =~= " 打卡记录"@ + seq!['\n', '\n'] + "> 由 mnesphere 维护。取值只有三种：`done` 做到了、`missed` 没做到、留空 未打卡。"@ + seq!['\n', '\n']);
    assert("\"\n---\n\n# "@ =~= "\"\n---\n"@ + seq!['\n', '#', ' ']);
    assert("# "@ =~= seq!['#', ' ']);
    assert("\n"@ =~= seq!['\n']);
}

#[verifier::spinoff_prover]
#[verifier::rlimit(40)]
proof fn lemma_month_text(
    month: Seq<char>,
    names: Seq<Seq<char>>,
    data: Map<Seq<char>, Map<Seq<char>, Seq<char>>>,
    today: int,
)
    ensures
        render_month_spec(month, names, data, today) == "---\nmonth: \""@ + month + "\"\n---\n"@ + unlines(
            file_lines(month, names, data, today),
        ),
{
    let n = names.len();
    let days = month_days_spec(month);
    let w = written_days(month, today);
    let nl = bar_row(header_cells(names));
    let rl = bar_row(dashes(n + 1));
    let rt = row_texts(w, names, data);
    let rows = match last_row_spec(month, today) {
        Some(end) => rows_from(days, end, names, data),
        None => seq![],
    };
    match last_row_spec(month, today) {
        Some(end) => {
            lemma_rows_from(days, end, names, data);
        },
        None => {
            assert(rt =~= Seq::<Seq<char>>::empty());
        },
    }
    assert(rows == unlines(rt));
    lemma_names_line(names);
    lemma_rule_line(n);
    lemma_head_literals();
    let h = heading(month);
    let q = "> 由 mnesphere 维护。取值只有三种：`done` 做到了、`missed` 没做到、留空 未打卡。"@;
    let head = seq![seq![], h, seq![], q, seq![], nl, rl];
    lemma_unlines_seven(head);
    lemma_unlines_append(head, rt);
    assert(file_lines(month, names, data, today) == head + rt);
    let f = "---\nmonth: \""@ + month + "\"\n---\n"@;
    let r = render_month_spec(month, names, data, today);
    assert(r == "---\nmonth: \""@ + month + "\"\n---\n\n# "@ + month + " 打卡记录\n\n> 由 mnesphere 维护。取值只有三种：`done` 做到了、`missed` 没做到、留空 未打卡。\n\n"@ + names_line(names) + rule_line(n) + "\n"@ + rows);
    assert(r =~= f + (seq![] + seq!['\n'] + h + seq!['\n'] + seq![] + seq!['\n'] + q + seq!['\n'] + seq![] + seq!['\n'] + nl
        + seq!['\n'] + rl + seq!['\n']) + unlines(rt));
}

proof fn lemma_file_lines(
    month: Seq<char>,
    names: Seq<Seq<char>>,
    data: Map<Seq<char>, Map<Seq<char>, Seq<char>>>,
    today: int,
)
    requires
        no_char(month, '\n'),
        all_table_text(names),
        forall|i: int| 0 <= i < written_days(month, today).len() ==> day_cell(
            #[trigger] written_days(month, today)[i],
        ),
    ensures
        lines(unlines(file_lines(month, names, data, today))) == file_lines(month, names, data, today),
{
    let n = names.len();
    let w = written_days(month, today);
    let rt = row_texts(w, names, data);
    let all = file_lines(month, names, data, today);
    let h = heading(month);
    reveal_strlit("# ");
    reveal_strlit(" 打卡记录");
    reveal_strlit("> 由 mnesphere 维护。取值只有三种：`done` 做到了、`missed` 没做到、留空 未打卡。");
    reveal_strlit("日期");
    reveal_strlit("---");
    assert(no_char(h, '\n')) by {
        assert forall|i: int| 0 <= i < h.len() implies h[i] != '\n' by {
            if 2 <= i < 2 + month.len() {
                assert(h[i] == month[i - 2]);
            }
        }
    }
    assert(no_char("> 由 mnesphere 维护。取值只有三种：`done` 做到了、`missed` 没做到、留空 未打卡。"@, '\n'));
    assert(h.last() == '录');
    assert("> 由 mnesphere 维护。取值只有三种：`done` 做到了、`missed` 没做到、留空 未打卡。"@.last() == '。');
    lemma_header_text(names);
    lemma_cells_of_bar_row(header_cells(names));
    lemma_dashes_text(n + 1);
    lemma_cells_of_bar_row(dashes(n + 1));
    assert forall|i: int| 0 <= i < rt.len() implies no_char(#[trigger] rt[i], '\n') && strip_cr(rt[i]) == rt[i] by {
        lemma_row_text_ok(w[i], names, data);
    }
    assert(lines_free(all)) by {
        assert forall|i: int| 0 <= i < all.len() implies no_char(#[trigger] all[i], '\n') by {
            if i >= 7 {
                assert(all[i] == rt[i - 7]);
            }
        }
    }
    lemma_lines_unlines(all, seq![]);
    assert(unlines(all) + seq![] =~= unlines(all));
    assert(all.map_values(|l: Seq<char>| strip_cr(l)) + lines(seq![]) =~= all) by {
        assert forall|i: int| 0 <= i < all.len() implies #[trigger] strip_cr(all[i]) == all[i] by {
            if i >= 7 {
                assert(all[i] == rt[i - 7]);
            }
        }
    }
}

proof fn lemma_header_text(names: Seq<Seq<char>>)
    requires
        all_table_text(names),
    ensures
        all_table_text(header_cells(names)),
{
    reveal_strlit("日期");
    assert forall|i: int| 0 <= i < header_cells(names).len() implies table_text(#[trigger] header_cells(names)[i]) by {
        if i == 0 {
            assert(!is_ws('日')) by {
                assert(('日' as u32) == 0x65E5);
            }
            assert(!is_ws('期')) by {
                assert(('期' as u32) == 0x671F);
            }
            assert(no_char("日期"@, '|'));
            assert(no_char("日期"@, '\n'));
        } else {
            assert(header_cells(names)[i] == names[i - 1]);
        }
    }
}

proof fn lemma_dashes_text(k: nat)
    ensures
        all_table_text(dashes(k)),
        is_rule(dashes(k)),
{
    reveal_strlit("---");
    assert(!is_ws('-')) by {
        assert(('-' as u32) == 45);
    }
    assert forall|i: int| 0 <= i < dashes(k).len() implies table_text(#[trigger] dashes(k)[i]) by {
        assert(no_char("---"@, '|'));
        assert(no_char("---"@, '\n'));
    }
    assert forall|i: int, j: int| 0 <= i < dashes(k).len() && 0 <= j < dashes(k)[i].len() implies crate::habit::rule_char(#[trigger] dashes(k)[i][j]) by {
        assert(dashes(k)[i] == "---"@);
    }
}

proof fn lemma_row_text_ok(d: Seq<char>, names: Seq<Seq<char>>, data: Map<Seq<char>, Map<Seq<char>, Seq<char>>>)
    requires
        day_cell(d),
    ensures
        no_char(row_text(d, names, data), '\n'),
        strip_cr(row_text(d, names, data)) == row_text(d, names, data),
{
    let cs = seq![d] + marks_of(d, names, data);
    assert forall|k: int| 0 <= k < cs.len() implies table_text(#[trigger] cs[k]) by {
        if k > 0 {
            lemma_marks_are_states(cell(data, d, names[k - 1]));
        }
    }
    lemma_cells_of_bar_row(cs);
}

proof fn lemma_scan_file(
    month: Seq<char>,
    names: Seq<Seq<char>>,
    data: Map<Seq<char>, Map<Seq<char>, Seq<char>>>,
    today: int,
)
    requires
        no_char(month, '\n'),
        all_table_text(names),
        forall|i: int| 0 <= i < written_days(month, today).len() ==> day_cell(
            #[trigger] written_days(month, today)[i],
        ),
    ensures
        scan_month(file_lines(month, names, data, today)).2 == written_table(written_days(month, today), names, data),
{
    let n = names.len();
    let w = written_days(month, today);
    let rt = row_texts(w, names, data);
    let h = heading(month);
    let q = "> 由 mnesphere 维护。取值只有三种：`done` 做到了、`missed` 没做到、留空 未打卡。"@;
    let head = seq![seq![], h, seq![], q, seq![], bar_row(header_cells(names)), bar_row(dashes(n + 1))];
    reveal_strlit("# ");
    reveal_strlit(" 打卡记录");
    reveal_strlit("> 由 mnesphere 维护。取值只有三种：`done` 做到了、`missed` 没做到、留空 未打卡。");
    assert(h[0] == '#');
    assert(q[0] == '>');
    assert(h.last() == '录');
    assert(q.last() == '。');
    assert(!is_ws('#')) by {
        assert(('#' as u32) == 35);
    }
    assert(!is_ws('>')) by {
        assert(('>' as u32) == 62);
    }
    assert(!is_ws('录')) by {
        assert(('录' as u32) == 0x5F55);
    }
    assert(!is_ws('。')) by {
        assert(('。' as u32) == 0x3002);
    }
    lemma_head_lines(names, h, q);
    assert(file_lines(month, names, data, today) == head + rt);
    lemma_scan_month_front(head + rt);
    lemma_scan_front_append((seq![], false, Map::empty()), head, rt);
    lemma_scan_rows(names, data, w, Map::empty());
    assert(Map::<Seq<char>, Map<Seq<char>, Seq<char>>>::empty().union_prefer_right(written_table(w, names, data))
        =~= written_table(w, names, data));
}

/// A month file reads back as it was written: the table read from the file
/// written for `data` holds, for each day the file has a row for, what each
/// habit's column says of it, and no other day. Where the names are habit
/// names (no `|`, no line break, no whitespace at the ends) and chrono's day
/// texts are table text of at least 8 bytes.
pub proof fn law_month_file_reads_back(
    month: Seq<char>,
    names: Seq<Seq<char>>,
    data: Map<Seq<char>, Map<Seq<char>, Seq<char>>>,
    today: int,
)
    requires
        no_char(month, '\n'),
        all_table_text(names),
        forall|i: int| 0 <= i < month_days_spec(month).len() ==> day_cell(#[trigger] month_days_spec(month)[i]),
    ensures
        parse_month_spec(render_month_spec(month, names, data, today)) == written_table(
            written_days(month, today),
            names,
            data,
        ),
        forall|d: Seq<char>, h: Seq<char>|
            written_days(month, today).contains(d) && names.contains(h) ==> cell(
                #[trigger] parse_month_spec(render_month_spec(month, names, data, today)),
                d,
                h,
            ) == mark_of(#[trigger] cell(data, d, h)),
{
    let days = month_days_spec(month);
    let w = written_days(month, today);
    match last_row_spec(month, today) {
        Some(end) => {
            lemma_rendered_sub(days, end);
        },
        None => {},
    }
    assert forall|i: int| 0 <= i < w.len() implies day_cell(#[trigger] w[i]) by {
        assert(days.contains(w[i]));
        let k = choose|k: int| 0 <= k < days.len() && #[trigger] days[k] == w[i];
    }
    let all = file_lines(month, names, data, today);
    lemma_month_text(month, names, data, today);
    lemma_front_matter(month, unlines(all));
    lemma_file_lines(month, names, data, today);
    lemma_scan_file(month, names, data, today);
    let parsed = parse_month_spec(render_month_spec(month, names, data, today));
    assert forall|d: Seq<char>, h: Seq<char>|
        w.contains(d) && names.contains(h) implies cell(parsed, d, h) == mark_of(cell(data, d, h)) by {
        assert(parsed.dom().contains(d));
        assert(parsed[d] == written_row(names, data, d));
        assert(parsed[d].dom().contains(h));
    }
}

// ───────────────────────── counting the recorded days ─────────────────────────

proof fn lemma_count_states_filters(s: Map<Seq<char>, Seq<char>>, ks: Seq<Seq<char>>)
    ensures
        crate::habit::count_states(s, ks) == (
            ks.filter(|d: Seq<char>| s[d] == "done"@).len(),
            ks.filter(|d: Seq<char>| s[d] == "missed"@).len(),
            ks.filter(|d: Seq<char>| s[d] != "done"@ && s[d] != "missed"@).len(),
        ),
    decreases ks.len(),
{
    lemma_state_words();
    if ks.len() > 0 {
        let dl = ks.drop_last();
        lemma_count_states_filters(s, dl);
        assert(dl.push(ks.last()) =~= ks);
        dl.lemma_filter_push(ks.last(), |d: Seq<char>| s[d] == "done"@);
        dl.lemma_filter_push(ks.last(), |d: Seq<char>| s[d] == "missed"@);
        dl.lemma_filter_push(ks.last(), |d: Seq<char>| s[d] != "done"@ && s[d] != "missed"@);
    } else {
        assert(ks.filter(|d: Seq<char>| s[d] == "done"@) =~= Seq::<Seq<char>>::empty()) by {
            reveal(Seq::filter);
        }
        assert(ks.filter(|d: Seq<char>| s[d] == "missed"@) =~= Seq::<Seq<char>>::empty()) by {
            reveal(Seq::filter);
        }
        assert(ks.filter(|d: Seq<char>| s[d] != "done"@ && s[d] != "missed"@) =~= Seq::<Seq<char>>::empty()) by {
            reveal(Seq::filter);
        }
    }
}

/// The counts of a habit's statistics, over every day its history records
/// (each once, in date order): `done` counts the days marked done,
/// `missed` exactly the days marked missed, and `none` the days marked
/// neither; an empty cell is never counted as missed.
pub proof fn law_stats_count_each_state(s: Map<Seq<char>, Seq<char>>)
    ensures
        ({
            let ks = crate::habit::sorted_keys(s);
            let c = crate::habit::count_states(s, ks);
            &&& c.0 == ks.filter(|d: Seq<char>| s[d] == "done"@).len()
            &&& c.1 == ks.filter(|d: Seq<char>| s[d] == "missed"@).len()
            &&& c.2 == ks.filter(|d: Seq<char>| s[d] != "done"@ && s[d] != "missed"@).len()
            &&& c.0 + c.1 + c.2 == ks.len()
        }),
{
    let ks = crate::habit::sorted_keys(s);
    lemma_count_states_filters(s, ks);
    lemma_count_total(s, ks);
}

proof fn lemma_count_total(s: Map<Seq<char>, Seq<char>>, ks: Seq<Seq<char>>)
    ensures
        crate::habit::count_states(s, ks).0 + crate::habit::count_states(s, ks).1 + crate::habit::count_states(
            s,
            ks,
        ).2 == ks.len(),
    decreases ks.len(),
{
    if ks.len() > 0 {
        lemma_count_total(s, ks.drop_last());
    }
}

} // verus!