//! What the task list gives back when it is read: a task line gives the
//! title, date, priority and state it was written with, and a task added
//! to the file is read as the last one, after the tasks that were there.

use vstd::prelude::*;
use crate::task::{
    best_hit, locate_spec, date_at, date_only, digits_at, due_at, due_of, first_due_from, first_pri_from, lemma_ws_run,
    pri_at, pri_word_at, priority_mark_spec, priority_of, render_spec, strip_due_from, strip_pri_from,
    task_line, title_of, ws_run, TaskSpec,
};
use crate::task::{
    add_spec, clean_title_spec, ends_note, lemma_note_end, new_task, norm_due_spec, note_end, note_lines,
    note_lines_from, parse_from, parse_spec, rejoin, remove_cr, task_at, trim_all, with_breaks,
    find_line, update_spec, updated, lemma_parse_from_bounds,
};
use crate::text::{
    find_char_from, is_prefix, is_suffix, is_ws, join, lemma_find_char_from, lemma_lines_cons, lemma_trim_end_prefix,
    lemma_trim_start_suffix, lemma_word_len, lines, no_char, occurs_at, strip_cr, trim, trim_end, trim_end_chars,
    trim_start, word_len, words,
};

verus! {

/// A title that a task line gives back as written: not empty, without
/// whitespace at its ends, holding no `@date` or `!` priority marker, and
/// not ending in `-`, `—` or `·` (which reading drops).
pub open spec fn plain_title(s: Seq<char>) -> bool {
    &&& s.len() > 0
    &&& !is_ws(s[0])
    &&& !is_ws(s.last())
    &&& forall|p: int| 0 <= p < s.len() ==> !#[trigger] due_at(s, p)
    &&& forall|p: int| 0 <= p < s.len() ==> #[trigger] pri_at(s, p) is None
    &&& s.last() != '-' && s.last() != '—' && s.last() != '·'
}

// ───────────────────────── scanning past plain text ─────────────────────────

proof fn lemma_pri_skip(s: Seq<char>, p: int, k: int)
    requires
        0 <= p <= k <= s.len(),
        forall|i: int| p <= i < k ==> #[trigger] pri_at(s, i) is None,
    ensures
        strip_pri_from(s, p) == s.subrange(p, k) + strip_pri_from(s, k),
        first_pri_from(s, p) == first_pri_from(s, k),
    decreases k - p,
{
    if p < k {
        lemma_pri_skip(s, p + 1, k);
        assert(pri_at(s, p) is None);
        assert(s.subrange(p, k) =~= seq![s[p]] + s.subrange(p + 1, k));
    } else {
        assert(s.subrange(p, k) =~= Seq::<char>::empty());
    }
}

proof fn lemma_due_skip(s: Seq<char>, p: int, k: int)
    requires
        0 <= p <= k <= s.len(),
        forall|i: int| p <= i < k ==> !#[trigger] due_at(s, i),
    ensures
        strip_due_from(s, p) == s.subrange(p, k) + strip_due_from(s, k),
        first_due_from(s, p) == first_due_from(s, k),
    decreases k - p,
{
    if p < k {
        lemma_due_skip(s, p + 1, k);
        assert(!due_at(s, p));
        assert(s.subrange(p, k) =~= seq![s[p]] + s.subrange(p + 1, k));
    } else {
        assert(s.subrange(p, k) =~= Seq::<char>::empty());
    }
}

/// Whitespace runs agree on a common prefix while they stay inside it.
proof fn lemma_ws_run_prefix(a: Seq<char>, b: Seq<char>, p: int)
    requires
        0 <= p <= a.len(),
        ws_run(a, p) < a.len(),
    ensures
        ws_run(a + b, p) == ws_run(a, p),
    decreases a.len() - p,
{
    let s = a + b;
    if p < a.len() && is_ws(a[p]) {
        assert(s[p] == a[p]);
        lemma_ws_run_prefix(a, b, p + 1);
    } else {
        assert(s[p] == a[p]);
    }
}

proof fn lemma_words_have_no_space()
    ensures
        "高"@ =~= seq!['高'],
        "中"@ =~= seq!['中'],
        "低"@ =~= seq!['低'],
        "high"@ =~= seq!['h', 'i', 'g', 'h'],
        "normal"@ =~= seq!['n', 'o', 'r', 'm', 'a', 'l'],
        "low"@ =~= seq!['l', 'o', 'w'],
{
    reveal_strlit("高");
    reveal_strlit("中");
    reveal_strlit("低");
    reveal_strlit("high");
    reveal_strlit("normal");
    reveal_strlit("low");
}

/// A priority word that starts before the end of `a` and is read in `a + b`
/// lies wholly in `a`, when `b` starts with a space.
proof fn lemma_word_inside(a: Seq<char>, b: Seq<char>, w: Seq<char>, q: int)
    requires
        0 <= q < a.len(),
        b.len() == 0 || b[0] == ' ',
        forall|i: int| 0 <= i < w.len() ==> w[i] != ' ',
        occurs_at(a + b, w, q),
    ensures
        occurs_at(a, w, q),
{
    let s = a + b;
    if q + w.len() > a.len() {
        let k = a.len() - q;
        assert(s.subrange(q, q + w.len())[k] == s[a.len() as int]);
        assert(s[a.len() as int] == b[0]);
    } else {
        assert(s.subrange(q, q + w.len()) =~= a.subrange(q, q + w.len()));
    }
}

/// No priority marker starts inside a plain title on a written line.
proof fn lemma_no_pri_in_title(a: Seq<char>, b: Seq<char>, p: int)
    requires
        a.len() > 0,
        !is_ws(a.last()),
        0 <= p < a.len(),
        pri_at(a, p) is None,
        b.len() == 0 || (b.len() >= 2 && b[0] == ' ' && (b[1] == '@' || b[1] == '!')),
    ensures
        pri_at(a + b, p) is None,
{
    let s = a + b;
    lemma_words_have_no_space();
    assert(s[p] == a[p]);
    if b.len() == 0 {
        assert(s =~= a);
    } else if s[p] == '!' {
        lemma_ws_run(a, p + 1);
        lemma_ws_run(s, p + 1);
        let qa = ws_run(a, p + 1);
        if p + 1 < a.len() {
            assert(qa < a.len()) by {
                if qa >= a.len() {
                    assert(is_ws(a[a.len() - 1]));
                }
            }
            lemma_ws_run_prefix(a, b, p + 1);
            let q = qa;
            assert(ws_run(s, p + 1) == q);
            assert(!occurs_at(a, "高"@, q) && !occurs_at(a, "中"@, q) && !occurs_at(a, "低"@, q) && !occurs_at(
                a,
                "high"@,
                q,
            ) && !occurs_at(a, "normal"@, q) && !occurs_at(a, "low"@, q));
            assert forall|w: Seq<char>|
                (w == "高"@ || w == "中"@ || w == "低"@ || w == "high"@ || w == "normal"@ || w == "low"@)
                    implies !occurs_at(s, w, q) by {
                assert forall|i: int| 0 <= i < w.len() implies w[i] != ' ' by {}
                if occurs_at(s, w, q) {
                    lemma_word_inside(a, b, w, q);
                }
            }
            assert(pri_word_at(s, q) is None);
        } else {
            // the marker is the title's last character: what follows it is
            // a space and then `@` or `!`, which starts no priority word
            let q = a.len() + 1int;
            assert(s[a.len() as int] == ' ');
            assert(s[q] == b[1]);
            assert(!is_ws(s[q]));
            assert(ws_run(s, q) == q);
            assert(ws_run(s, a.len() as int) == q);
            assert(ws_run(s, p + 1) == q);
            assert forall|w: Seq<char>| #[trigger] occurs_at(s, w, q) && w.len() > 0 implies w[0] == s[q] by {
                assert(s.subrange(q, q + w.len())[0] == s[q]);
            }
            assert("高"@[0] == '高' && "中"@[0] == '中' && "低"@[0] == '低');
            assert("high"@[0] == 'h' && "normal"@[0] == 'n' && "low"@[0] == 'l');
            assert(!occurs_at(s, "高"@, q));
            assert(!occurs_at(s, "中"@, q));
            assert(!occurs_at(s, "低"@, q));
            assert(!occurs_at(s, "high"@, q));
            assert(!occurs_at(s, "normal"@, q));
            assert(!occurs_at(s, "low"@, q));
            assert(pri_word_at(s, q) is None);
        }
    }
}

/// No due-date marker starts inside a plain title on a written line.
proof fn lemma_no_due_in_title(a: Seq<char>, b: Seq<char>, p: int)
    requires
        0 <= p < a.len(),
        !due_at(a, p),
        b.len() == 0 || b[0] == ' ',
    ensures
        !due_at(a + b, p),
{
    let s = a + b;
    if due_at(s, p) {
        assert(s[p] == a[p]);
        if p + 11 <= a.len() {
            assert forall|m: int| 0 <= m < 4 implies #[trigger] crate::unicode::is_decimal(a[p + 1 + m]) by {
                assert(crate::unicode::is_decimal(s[p + 1 + m]));
            }
            assert forall|m: int| 0 <= m < 2 implies #[trigger] crate::unicode::is_decimal(a[p + 6 + m]) by {
                assert(crate::unicode::is_decimal(s[p + 6 + m]));
            }
            assert forall|m: int| 0 <= m < 2 implies #[trigger] crate::unicode::is_decimal(a[p + 9 + m]) by {
                assert(crate::unicode::is_decimal(s[p + 9 + m]));
            }
            assert(s[p + 5] == a[p + 5]);
            assert(s[p + 8] == a[p + 8]);
            assert(date_at(a, p + 1));
        } else {
            let k = a.len() - (p + 1);
            assert(s[a.len() as int] == ' ');
            assert(!crate::unicode::is_decimal(' '));
            if k < 4 {
                assert(crate::unicode::is_decimal(s[p + 1 + k]));
            } else if k == 4 {
                assert(s[p + 5] == '-');
            } else if k < 7 {
                assert(crate::unicode::is_decimal(s[p + 6 + (k - 5)]));
            } else if k == 7 {
                assert(s[p + 8] == '-');
            } else {
                assert(crate::unicode::is_decimal(s[p + 9 + (k - 8)]));
            }
        }
    }
}

// ───────────────────────── trimming ─────────────────────────

proof fn lemma_trim_plain_then_spaces(a: Seq<char>, n: nat)
    requires
        a.len() > 0,
        !is_ws(a[0]),
        !is_ws(a.last()),
    ensures
        trim(a + Seq::new(n, |i: int| ' ')) == a,
    decreases n,
{
    let s = a + Seq::new(n, |i: int| ' ');
    assert(s[0] == a[0]);
    assert(trim_start(s) == s);
    if n == 0 {
        assert(s =~= a);
        assert(trim_end(a) == a);
    } else {
        lemma_trim_plain_then_spaces(a, (n - 1) as nat);
        let s1 = a + Seq::new((n - 1) as nat, |i: int| ' ');
        assert(s.drop_last() =~= s1);
        assert(is_ws(s.last()));
        assert(s1[0] == a[0]);
        assert(trim_start(s1) == s1);
    }
}

// ───────────────────────── the pieces of a written line ─────────────────────────

/// What follows the title on a written line for the date: nothing, or a
/// space, `@` and the date.
pub open spec fn due_piece(due: Seq<char>) -> Seq<char> {
    if due.len() > 0 {
        seq![' ', '@'] + due
    } else {
        seq![]
    }
}

/// What follows the date on a written line for the priority: nothing, or
/// a space and the mark.
pub open spec fn mark_piece(mark: Seq<char>) -> Seq<char> {
    if mark.len() > 0 {
        seq![' '] + mark
    } else {
        seq![]
    }
}

proof fn lemma_marks()
    ensures
        "!高"@ =~= seq!['!', '高'],
        "!低"@ =~= seq!['!', '低'],
        "high"@ =~= seq!['h', 'i', 'g', 'h'],
        "low"@ =~= seq!['l', 'o', 'w'],
        "normal"@ =~= seq!['n', 'o', 'r', 'm', 'a', 'l'],
        "高"@ =~= seq!['高'],
        "中"@ =~= seq!['中'],
        "低"@ =~= seq!['低'],
{
    reveal_strlit("!高");
    reveal_strlit("!低");
    reveal_strlit("high");
    reveal_strlit("low");
    reveal_strlit("normal");
    reveal_strlit("高");
    reveal_strlit("中");
    reveal_strlit("低");
}

proof fn lemma_date_chars(due: Seq<char>, i: int)
    requires
        date_only(due),
        0 <= i < due.len(),
    ensures
        due[i] != '!' && due[i] != '@' && due[i] != ' ' && !is_ws(due[i]),
{
    assert(date_at(due, 0));
    if i < 4 {
        assert(crate::unicode::is_decimal(due[0 + i]));
    } else if i == 4 {
    } else if i < 7 {
        assert(crate::unicode::is_decimal(due[5 + (i - 5)]));
    } else if i == 7 {
    } else {
        assert(crate::unicode::is_decimal(due[8 + (i - 8)]));
    }
}

/// Reading the priority: none of the title or the date is a marker, and
/// the mark at the end is.
proof fn lemma_read_priority(title: Seq<char>, due: Seq<char>, mark: Seq<char>)
    requires
        plain_title(title),
        due.len() == 0 || date_only(due),
        mark.len() == 0 || mark == "!高"@ || mark == "!低"@,
    ensures
        ({
            let rest = title + due_piece(due) + mark_piece(mark);
            &&& priority_of(rest) == (if mark == "!高"@ {
                "high"@
            } else if mark == "!低"@ {
                "low"@
            } else {
                "normal"@
            })
            &&& strip_pri_from(rest, 0) == title + due_piece(due) + (if mark.len() > 0 {
                seq![' ']
            } else {
                seq![]
            })
        }),
{
    lemma_marks();
    let d = due_piece(due);
    let m = mark_piece(mark);
    let rest = title + d + m;
    let tail = d + m;
    assert(rest =~= title + tail);
    let n = title.len() as int;
    assert forall|p: int| 0 <= p < n implies #[trigger] pri_at(rest, p) is None by {
        assert(pri_at(title, p) is None);
        if d.len() > 0 {
            assert(tail[0] == ' ' && tail[1] == '@');
        } else if m.len() > 0 {
            assert(tail =~= m);
            assert(tail[0] == ' ' && tail[1] == '!');
        } else {
            assert(tail.len() == 0);
        }
        lemma_no_pri_in_title(title, tail, p);
    }
    lemma_pri_skip(rest, 0, n);
    let e0 = n + d.len();
    assert forall|p: int| n <= p < e0 implies #[trigger] pri_at(rest, p) is None by {
        assert(rest[p] == d[p - n]);
        if p - n >= 2 {
            lemma_date_chars(due, p - n - 2);
            assert(d[p - n] == due[p - n - 2]);
        }
    }
    lemma_pri_skip(rest, n, e0);
    assert(rest.subrange(0, n) =~= title);
    assert(rest.subrange(n, e0) =~= d);
    if m.len() == 0 {
        assert(rest.len() == e0);
        assert(title + d + seq![] =~= title + d);
    } else {
        let e = e0 + 1;
        assert(rest[e0] == ' ');
        assert(pri_at(rest, e0) is None);
        lemma_pri_skip(rest, n, e);
        assert(rest.subrange(n, e) =~= d + seq![' ']);
        assert(rest[e] == '!');
        assert(rest.len() == e + 2);
        let c = rest[e + 1];
        assert(c == mark[1]);
        assert(!is_ws(c));
        assert(ws_run(rest, e + 1) == e + 1);
        assert(rest.subrange(e + 1, e + 2) =~= seq![c]);
        if mark == "!高"@ {
            assert(occurs_at(rest, "高"@, e + 1));
            assert(pri_at(rest, e) == Some((e + 2, "高"@)));
            assert(trim("高"@) == "高"@);
        } else {
            assert(!occurs_at(rest, "高"@, e + 1)) by {
                if occurs_at(rest, "高"@, e + 1) {
                    assert(rest.subrange(e + 1, e + 2)[0] == '高');
                }
            }
            assert(!occurs_at(rest, "中"@, e + 1)) by {
                if occurs_at(rest, "中"@, e + 1) {
                    assert(rest.subrange(e + 1, e + 2)[0] == '中');
                }
            }
            assert(occurs_at(rest, "低"@, e + 1));
            assert(pri_at(rest, e) == Some((e + 2, "低"@)));
            assert(trim("低"@) == "低"@);
        }
        assert(first_pri_from(rest, e) == pri_at(rest, e));
        assert(strip_pri_from(rest, e) == strip_pri_from(rest, e + 2));
        assert(strip_pri_from(rest, e + 2) =~= Seq::<char>::empty());
        assert(title + (d + seq![' ']) + Seq::<char>::empty() =~= title + d + seq![' ']);
    }
}

/// Reading the date: the first marker is the written one, if any.
proof fn lemma_read_due(title: Seq<char>, due: Seq<char>, mark: Seq<char>)
    requires
        plain_title(title),
        due.len() == 0 || date_only(due),
        mark.len() == 0 || mark == "!高"@ || mark == "!低"@,
    ensures
        due_of(title + due_piece(due) + mark_piece(mark)) == due,
{
    lemma_marks();
    let d = due_piece(due);
    let m = mark_piece(mark);
    let rest = title + d + m;
    let tail = d + m;
    assert(rest =~= title + tail);
    let n = title.len() as int;
    assert forall|p: int| 0 <= p < n implies !#[trigger] due_at(rest, p) by {
        assert(!due_at(title, p));
        if tail.len() > 0 {
            if d.len() > 0 {
                assert(tail[0] == ' ');
            } else {
                assert(tail =~= m);
            }
        }
        lemma_no_due_in_title(title, tail, p);
    }
    lemma_due_skip(rest, 0, n);
    if d.len() > 0 {
        assert(rest[n] == ' ');
        assert(!due_at(rest, n));
        lemma_due_skip(rest, 0, n + 1);
        assert(rest[n + 1] == '@');
        assert(date_at(due, 0));
        assert forall|k: int| 0 <= k < 10 implies rest[n + 2 + k] == #[trigger] due[k] by {}
        assert forall|mm: int| 0 <= mm < 4 implies #[trigger] crate::unicode::is_decimal(rest[n + 2 + mm]) by {
            assert(crate::unicode::is_decimal(due[0 + mm]));
        }
        assert forall|mm: int| 0 <= mm < 2 implies #[trigger] crate::unicode::is_decimal(rest[n + 7 + mm]) by {
            assert(crate::unicode::is_decimal(due[5 + mm]));
            assert(rest[n + 7 + mm] == due[5 + mm]);
        }
        assert forall|mm: int| 0 <= mm < 2 implies #[trigger] crate::unicode::is_decimal(rest[n + 10 + mm]) by {
            assert(crate::unicode::is_decimal(due[8 + mm]));
            assert(rest[n + 10 + mm] == due[8 + mm]);
        }
        assert(rest[n + 6] == due[4]);
        assert(rest[n + 9] == due[7]);
        assert(digits_at(rest, n + 2, 4));
        assert(digits_at(rest, n + 2 + 5, 2)) by {
            assert forall|k: int| 0 <= k < 2 implies #[trigger] crate::unicode::is_decimal(rest[n + 2 + 5 + k]) by {
                assert(rest[n + 2 + 5 + k] == rest[n + 7 + k]);
            }
        }
        assert(digits_at(rest, n + 2 + 8, 2)) by {
            assert forall|k: int| 0 <= k < 2 implies #[trigger] crate::unicode::is_decimal(rest[n + 2 + 8 + k]) by {
                assert(rest[n + 2 + 8 + k] == rest[n + 10 + k]);
            }
        }
        assert(date_at(rest, n + 2));
        assert(due_at(rest, n + 1));
        assert(first_due_from(rest, n + 1) == Some(n + 1));
        assert(rest.subrange(n + 2, n + 12) =~= due);
    } else {
        assert forall|p: int| n <= p < rest.len() implies !#[trigger] due_at(rest, p) by {
            assert(rest[p] == m[p - n]);
            if p - n == 1 {
                assert(m[1] == '!');
            } else if p - n == 2 {
                assert(m[2] == mark[1]);
            }
        }
        lemma_due_skip(rest, n, rest.len() as int);
    }
}

/// Reading the title: what is left once the markers are out, trimmed.
proof fn lemma_read_title(title: Seq<char>, due: Seq<char>, spaced: bool)
    requires
        plain_title(title),
        due.len() == 0 || date_only(due),
    ensures
        title_of_stripped(title + due_piece(due) + (if spaced { seq![' '] } else { seq![] })) == title,
{
    let d = due_piece(due);
    let sp: Seq<char> = if spaced { seq![' '] } else { seq![] };
    let s1 = title + d + sp;
    let tail = d + sp;
    assert(s1 =~= title + tail);
    let n = title.len() as int;
    assert forall|p: int| 0 <= p < n implies !#[trigger] due_at(s1, p) by {
        assert(!due_at(title, p));
        if tail.len() > 0 {
            if d.len() > 0 {
                assert(tail[0] == ' ');
            } else {
                assert(tail =~= sp);
            }
        }
        lemma_no_due_in_title(title, tail, p);
    }
    lemma_due_skip(s1, 0, n);
    assert(s1.subrange(0, n) =~= title);
    let spaces: nat = if d.len() > 0 {
        if spaced { 2 } else { 1 }
    } else {
        if spaced { 1 } else { 0 }
    };
    if d.len() > 0 {
        assert(s1[n] == ' ');
        assert(!due_at(s1, n));
        assert(strip_due_from(s1, n) == seq![' '] + strip_due_from(s1, n + 1));
        assert(date_at(due, 0));
        assert forall|mm: int| 0 <= mm < 4 implies #[trigger] crate::unicode::is_decimal(s1[n + 2 + mm]) by {
            assert(crate::unicode::is_decimal(due[0 + mm]));
            assert(s1[n + 2 + mm] == due[mm]);
        }
        assert forall|mm: int| 0 <= mm < 2 implies #[trigger] crate::unicode::is_decimal(s1[n + 7 + mm]) by {
            assert(crate::unicode::is_decimal(due[5 + mm]));
            assert(s1[n + 7 + mm] == due[5 + mm]);
        }
        assert forall|mm: int| 0 <= mm < 2 implies #[trigger] crate::unicode::is_decimal(s1[n + 10 + mm]) by {
            assert(crate::unicode::is_decimal(due[8 + mm]));
            assert(s1[n + 10 + mm] == due[8 + mm]);
        }
        assert(s1[n + 1] == '@');
        assert(s1[n + 6] == due[4]);
        assert(s1[n + 9] == due[7]);
        assert(date_at(s1, n + 2));
        assert(due_at(s1, n + 1));
        assert(strip_due_from(s1, n + 1) == strip_due_from(s1, n + 12));
        if spaced {
            assert(s1[n + 12] == ' ');
            assert(!due_at(s1, n + 12));
            assert(strip_due_from(s1, n + 12) == seq![' '] + strip_due_from(s1, n + 13));
            assert(strip_due_from(s1, n + 13) =~= Seq::<char>::empty());
        } else {
            assert(strip_due_from(s1, n + 12) =~= Seq::<char>::empty());
        }
    } else {
        if spaced {
            assert(s1[n] == ' ');
            assert(!due_at(s1, n));
            assert(strip_due_from(s1, n) == seq![' '] + strip_due_from(s1, n + 1));
            assert(strip_due_from(s1, n + 1) =~= Seq::<char>::empty());
        } else {
            assert(strip_due_from(s1, n) =~= Seq::<char>::empty());
        }
    }
    let s2 = strip_due_from(s1, 0);
    assert(s2 =~= title + Seq::new(spaces, |i: int| ' '));
    lemma_trim_plain_then_spaces(title, spaces);
    assert(!seq!['-', '—', '·'].contains(title.last())) by {
        if seq!['-', '—', '·'].contains(title.last()) {
            let k = choose|k: int| 0 <= k < 3 && seq!['-', '—', '·'][k] == title.last();
        }
    }
    assert(trim_end_chars(title, seq!['-', '—', '·']) == title);
    lemma_trim_plain_then_spaces(title, 0);
    assert(title + Seq::new(0, |i: int| ' ') =~= title);
}

/// The title that reading gives once the priority markers are out.
pub open spec fn title_of_stripped(s: Seq<char>) -> Seq<char> {
    trim(trim_end_chars(trim(strip_due_from(s, 0)), seq!['-', '—', '·']))
}

// ───────────────────────── the law ─────────────────────────

/// The line a task is written on: the checkbox, the title, the date and
/// the priority mark.
proof fn lemma_line_shape(title: Seq<char>, due: Seq<char>, priority: Seq<char>, done: bool)
    requires
        plain_title(title),
        due.len() == 0 || date_only(due),
        priority == "high"@ || priority == "normal"@ || priority == "low"@,
    ensures
        ({
            let t = TaskSpec { line: 0, raw: seq![], span: 0, title, due, priority, note: seq![], done };
            let x: Seq<char> = if done { "x"@ } else { " "@ };
            render_spec(t)[0] == "- ["@ + x + "] "@ + (title + due_piece(due) + mark_piece(priority_mark_spec(priority)))
        }),
{
    lemma_marks();
    reveal_strlit("- [");
    reveal_strlit("x");
    reveal_strlit(" ");
    reveal_strlit("] ");
    reveal_strlit("@");
    let t = TaskSpec { line: 0, raw: seq![], span: 0, title, due, priority, note: seq![], done };
    let mark = priority_mark_spec(priority);
    assert(mark.len() == 0 || mark == "!高"@ || mark == "!低"@);
    // the title and the date are already trimmed
    assert(trim_start(title) == title);
    assert(trim_end(title) == title);
    if due.len() > 0 {
        lemma_date_chars(due, 0);
        lemma_date_chars(due, due.len() - 1);
        assert(trim_start(due) == due);
        assert(trim_end(due) == due);
    } else {
        assert(trim_start(due) == due);
        assert(trim_end(due) == due);
    }
    let d = due_piece(due);
    let m = mark_piece(mark);
    let rest = title + d + m;
    let parts = crate::task::line_parts(t);
    // the words after the checkbox, joined
    if due.len() > 0 && mark.len() > 0 {
        assert(parts =~= seq![title, "@"@ + due, mark]);
        assert(parts.drop_last() =~= seq![title, "@"@ + due]);
        assert(parts.drop_last().drop_last() =~= seq![title]);
        assert(join(parts.drop_last().drop_last(), " "@) == title);
        assert(join(parts.drop_last(), " "@) == title + " "@ + ("@"@ + due));
        assert(join(parts, " "@) == title + " "@ + ("@"@ + due) + " "@ + mark);
        assert(join(parts, " "@) =~= rest);
    } else if due.len() > 0 {
        assert(parts =~= seq![title, "@"@ + due]);
        assert(parts.drop_last() =~= seq![title]);
        assert(join(parts.drop_last(), " "@) == title);
        assert(join(parts, " "@) == title + " "@ + ("@"@ + due));
        assert(join(parts, " "@) =~= rest);
    } else if mark.len() > 0 {
        assert(parts =~= seq![title, mark]);
        assert(parts.drop_last() =~= seq![title]);
        assert(join(parts.drop_last(), " "@) == title);
        assert(join(parts, " "@) == title + " "@ + mark);
        assert(join(parts, " "@) =~= rest);
    } else {
        assert(parts =~= seq![title]);
        assert(join(parts, " "@) =~= rest);
    }
    let x: Seq<char> = if done { "x"@ } else { " "@ };
    let l = "- ["@ + x + "] "@ + rest;
    assert(render_spec(t)[0] == l);
}

/// A task written with a plain title, a `dddd-dd-dd` date or none,
/// and one of the three priorities is read back from its line as it was
/// written: its state, title, date and priority.
pub proof fn law_written_task_reads_back(title: Seq<char>, due: Seq<char>, priority: Seq<char>, done: bool)
    requires
        plain_title(title),
        due.len() == 0 || date_only(due),
        priority == "high"@ || priority == "normal"@ || priority == "low"@,
    ensures
        ({
            let t = TaskSpec { line: 0, raw: seq![], span: 0, title, due, priority, note: seq![], done };
            let l = render_spec(t)[0];
            &&& task_line(l) matches Some((d, rest))
            &&& d == done
            &&& title_of(rest) == title
            &&& due_of(rest) == due
            &&& priority_of(rest) == priority
        }),
{
    lemma_marks();
    reveal_strlit("- [");
    reveal_strlit("x");
    reveal_strlit(" ");
    reveal_strlit("] ");
    reveal_strlit("@");
    lemma_line_shape(title, due, priority, done);
    let t = TaskSpec { line: 0, raw: seq![], span: 0, title, due, priority, note: seq![], done };
    let mark = priority_mark_spec(priority);
    assert(mark.len() == 0 || mark == "!高"@ || mark == "!低"@);
    if due.len() > 0 {
        lemma_date_chars(due, 0);
    }
    let d = due_piece(due);
    let m = mark_piece(mark);
    let rest = title + d + m;
    let x: Seq<char> = if done { "x"@ } else { " "@ };
    let l = "- ["@ + x + "] "@ + rest;
    assert(render_spec(t)[0] == l);
    // the checkbox
    assert(l[0] == '-' && l[1] == ' ' && l[2] == '[' && l[4] == ']' && l[5] == ' ');
    assert(l[3] == (if done { 'x' } else { ' ' }));
    assert(l[6] == title[0]);
    assert(ws_run(l, 0) == 0);
    assert(ws_run(l, 2) == 2);
    assert(ws_run(l, 1) == 2);
    assert(ws_run(l, 6) == 6);
    assert(ws_run(l, 5) == 6);
    assert(l.skip(6) =~= rest);
    assert(task_line(l) == Some((done, rest)));
    // what is read of the rest
    lemma_read_priority(title, due, mark);
    lemma_read_due(title, due, mark);
    lemma_read_title(title, due, mark.len() > 0);
    assert(priority == "high"@ ==> mark == "!高"@);
    assert(priority == "low"@ ==> mark == "!低"@);
    assert(priority == "normal"@ ==> mark.len() == 0);
}


/// A task is found again by its text wherever its line has moved: when
/// exactly one line holds that text, that line is found whatever the hint;
/// when none does, nothing is found.
pub proof fn law_moved_task_is_found(ls: Seq<Seq<char>>, raw: Seq<char>, hint: int, i: int)
    requires
        0 <= i < ls.len(),
        ls[i] == raw,
        forall|j: int| 0 <= j < ls.len() && #[trigger] ls[j] == raw ==> j == i,
    ensures
        locate_spec(ls, raw, hint) == Some(i),
{
    assert(best_hit(ls, raw, hint, i));
    if !(0 <= hint < ls.len() && ls[hint] == raw) {
        let k = choose|k: int| best_hit(ls, raw, hint, k);
        assert(ls[k] == raw);
    }
}

/// A text that no line holds is not found.
pub proof fn law_gone_task_is_not_found(ls: Seq<Seq<char>>, raw: Seq<char>, hint: int)
    requires
        forall|j: int| 0 <= j < ls.len() ==> ls[j] != raw,
    ensures
        locate_spec(ls, raw, hint) is None,
{
}
// ───────────────────────── the list file ─────────────────────────

/// A character of a cleaned title: a space, or no whitespace at all.
pub open spec fn spaced_char(c: char) -> bool {
    c == ' ' || !is_ws(c)
}

pub open spec fn all_spaced(s: Seq<char>) -> bool {
    forall|i: int| 0 <= i < s.len() ==> spaced_char(#[trigger] s[i])
}

proof fn lemma_words_chars(s: Seq<char>)
    ensures
        forall|k: int| 0 <= k < words(s).len() ==> all_spaced(#[trigger] words(s)[k]),
    decreases s.len(),
{
    let t = trim_start(s);
    lemma_trim_start_suffix(s);
    if t.len() > 0 {
        let n = word_len(t, 0);
        lemma_word_len(t, 0);
        lemma_words_chars(t.skip(n));
        let ws = words(s);
        let rest = words(t.skip(n));
        assert(ws == seq![t.take(n)] + rest);
        assert forall|k: int| 0 <= k < ws.len() implies all_spaced(#[trigger] ws[k]) by {
            if k == 0 {
                assert forall|i: int| 0 <= i < ws[0].len() implies spaced_char(#[trigger] ws[0][i]) by {
                    assert(ws[0][i] == t[i]);
                }
            } else {
                assert(ws[k] == rest[k - 1]);
            }
        }
    }
}

proof fn lemma_join_chars(parts: Seq<Seq<char>>, sep: Seq<char>)
    requires
        forall|k: int| 0 <= k < parts.len() ==> all_spaced(#[trigger] parts[k]),
        all_spaced(sep),
    ensures
        all_spaced(join(parts, sep)),
    decreases parts.len(),
{
    if parts.len() == 1 {
        assert(all_spaced(parts[0]));
    } else if parts.len() > 1 {
        let dl = parts.drop_last();
        assert forall|k: int| 0 <= k < dl.len() implies all_spaced(#[trigger] dl[k]) by {
            assert(dl[k] == parts[k]);
        }
        lemma_join_chars(dl, sep);
        assert(all_spaced(parts.last()));
        let j = join(parts, sep);
        assert(j == join(dl, sep) + sep + parts.last());
        assert forall|i: int| 0 <= i < j.len() implies spaced_char(#[trigger] j[i]) by {
            let a = join(dl, sep);
            if i < a.len() {
                assert(j[i] == a[i]);
            } else if i < a.len() + sep.len() {
                assert(j[i] == sep[i - a.len()]);
            } else {
                assert(j[i] == parts.last()[i - a.len() - sep.len()]);
            }
        }
    }
}

/// A cleaned title holds no whitespace but spaces.
proof fn lemma_clean_title_chars(s: Seq<char>)
    ensures
        all_spaced(clean_title_spec(s)),
{
    reveal_strlit(" ");
    lemma_words_chars(s);
    assert(all_spaced(" "@)) by {
        assert(" "@[0] == ' ');
    }
    lemma_join_chars(words(s), " "@);
    let j = join(words(s), " "@);
    let c = clean_title_spec(s);
    assert forall|i: int| 0 <= i < c.len() implies spaced_char(#[trigger] c[i]) by {
        assert(c[i] == j[i]);
    }
}

/// Text that ends in a line break (or is empty) is read line by line
/// apart from what follows it.
proof fn lemma_lines_append(a: Seq<char>, b: Seq<char>)
    requires
        a.len() == 0 || a.last() == '\n',
    ensures
        lines(a + b) == lines(a) + lines(b),
    decreases a.len(),
{
    if a.len() == 0 {
        assert(a + b =~= b);
        assert(lines(a) + lines(b) =~= lines(b));
    } else {
        let s = a + b;
        lemma_find_char_from(a, '\n', 0);
        lemma_find_char_from(s, '\n', 0);
        assert(a[a.len() - 1] == '\n');
        let i = find_char_from(a, '\n', 0)->Some_0;
        assert(s[i] == '\n');
        match find_char_from(s, '\n', 0) {
            Some(i2) => {
                if i2 < i {
                    assert(s[i2] == a[i2]);
                }
                assert(i2 == i);
            },
            None => {},
        }
        assert(s.take(i) =~= a.take(i));
        assert(s.skip(i + 1) =~= a.skip(i + 1) + b);
        let r = a.skip(i + 1);
        assert(r.len() == 0 || r.last() == '\n') by {
            if r.len() > 0 {
                assert(r.last() == a.last());
            }
        }
        lemma_lines_append(r, b);
        assert(lines(a + b) =~= lines(a) + lines(b));
    }
}

/// A line break added after a last line that has none reads the same.
proof fn lemma_lines_add_break(c: Seq<char>)
    requires
        c.len() > 0,
        c.last() != '\n',
        c.last() != '\r',
    ensures
        lines(c + seq!['\n']) == lines(c),
    decreases c.len(),
{
    let s = c + seq!['\n'];
    lemma_find_char_from(c, '\n', 0);
    lemma_find_char_from(s, '\n', 0);
    match find_char_from(c, '\n', 0) {
        None => {
            assert(s[c.len() as int] == '\n');
            match find_char_from(s, '\n', 0) {
                Some(i2) => {
                    if i2 < c.len() {
                        assert(s[i2] == c[i2]);
                    }
                },
                None => {},
            }
            assert(s.take(c.len() as int) =~= c);
            assert(s.skip(c.len() + 1int) =~= Seq::<char>::empty());
            assert(no_char(c, '\n'));
            assert(s =~= c + seq!['\n'] + Seq::<char>::empty());
            lemma_lines_cons(c, Seq::<char>::empty());
            assert(strip_cr(c) == c);
            assert(lines(Seq::<char>::empty()) =~= Seq::<Seq<char>>::empty());
            assert(lines(s) =~= seq![c]);
        },
        Some(i) => {
            assert(s[i] == '\n');
            match find_char_from(s, '\n', 0) {
                Some(i2) => {
                    if i2 < i {
                        assert(s[i2] == c[i2]);
                    }
                    assert(i2 == i);
                },
                None => {},
            }
            assert(i < c.len() - 1);
            let r = c.skip(i + 1);
            assert(s.take(i) =~= c.take(i));
            assert(s.skip(i + 1) =~= r + seq!['\n']);
            assert(r.last() == c.last());
            lemma_lines_add_break(r);
        },
    }
}

pub open spec fn plain_line(l: Seq<char>) -> bool {
    no_char(l, '\n') && (l.len() == 0 || l.last() != '\r')
}

/// Lines each written with a line break after it read back as they were.
proof fn lemma_lines_with_breaks(ls: Seq<Seq<char>>)
    requires
        forall|k: int| 0 <= k < ls.len() ==> plain_line(#[trigger] ls[k]),
    ensures
        lines(with_breaks(ls)) == ls,
    decreases ls.len(),
{
    reveal_strlit("\n");
    if ls.len() == 0 {
        assert(lines(Seq::<char>::empty()) =~= Seq::<Seq<char>>::empty());
    } else {
        let dl = ls.drop_last();
        assert forall|k: int| 0 <= k < dl.len() implies plain_line(#[trigger] dl[k]) by {
            assert(dl[k] == ls[k]);
        }
        lemma_lines_with_breaks(dl);
        let w = with_breaks(dl);
        assert(w.len() == 0 || w.last() == '\n') by {
            if dl.len() > 0 {
                assert(w == with_breaks(dl.drop_last()) + dl.last() + "\n"@);
            }
        }
        let l = ls.last();
        assert(plain_line(l));
        assert(with_breaks(ls) == w + (l + seq!['\n']));
        lemma_lines_append(w, l + seq!['\n']);
        assert(l + seq!['\n'] =~= l + seq!['\n'] + Seq::<char>::empty());
        lemma_lines_cons(l, Seq::<char>::empty());
        assert(strip_cr(l) == l);
        assert(lines(Seq::<char>::empty()) =~= Seq::<Seq<char>>::empty());
        assert(dl + seq![l] =~= ls);
    }
}

/// Lines after a task's notes that end the note leave the tasks before
/// them as they were.
proof fn lemma_note_end_prefix(a: Seq<Seq<char>>, b: Seq<Seq<char>>, k: int)
    requires
        b.len() > 0,
        ends_note(b[0]),
        0 <= k <= a.len(),
    ensures
        note_end(a + b, k) == note_end(a, k),
    decreases a.len() - k,
{
    if k < a.len() {
        assert((a + b)[k] == a[k]);
        lemma_note_end_prefix(a, b, k + 1);
    } else {
        assert((a + b)[k] == b[0]);
    }
}

proof fn lemma_parse_prefix(a: Seq<Seq<char>>, b: Seq<Seq<char>>, i: int)
    requires
        b.len() > 0,
        ends_note(b[0]),
        0 <= i <= a.len(),
    ensures
        parse_from(a + b, i) == parse_from(a, i) + parse_from(a + b, a.len() as int),
    decreases a.len() - i,
{
    let ab = a + b;
    if i == a.len() {
        assert(parse_from(a, i) =~= Seq::<TaskSpec>::empty());
        assert(parse_from(a, i) + parse_from(ab, i) =~= parse_from(ab, i));
    } else {
        assert(ab[i] == a[i]);
        match task_line(a[i]) {
            None => {
                lemma_parse_prefix(a, b, i + 1);
            },
            Some((done, rest)) => {
                lemma_note_end_prefix(a, b, i + 1);
                lemma_note_end(a, i + 1);
                let j = note_end(a, i + 1);
                lemma_parse_prefix(a, b, j);
                assert(ab.subrange(i + 1, j) =~= a.subrange(i + 1, j));
                assert(task_at(ab, i, j, done, rest) == task_at(a, i, j, done, rest));
                assert(parse_from(ab, i) =~= parse_from(a, i) + parse_from(ab, a.len() as int));
            },
        }
    }
}

proof fn lemma_lines_no_break(s: Seq<char>)
    ensures
        forall|k: int| 0 <= k < lines(s).len() ==> no_char(#[trigger] lines(s)[k], '\n'),
    decreases s.len(),
{
    if s.len() > 0 {
        lemma_find_char_from(s, '\n', 0);
        match find_char_from(s, '\n', 0) {
            Some(i) => {
                lemma_lines_no_break(s.skip(i + 1));
                let ls = lines(s);
                let f = strip_cr(s.take(i));
                assert(ls == seq![f] + lines(s.skip(i + 1)));
                assert forall|k: int| 0 <= k < ls.len() implies no_char(#[trigger] ls[k], '\n') by {
                    if k == 0 {
                        assert forall|j: int| 0 <= j < f.len() implies f[j] != '\n' by {
                            assert(f[j] == s[j]);
                        }
                    } else {
                        assert(ls[k] == lines(s.skip(i + 1))[k - 1]);
                    }
                }
            },
            None => {
                assert(lines(s) == seq![s]);
            },
        }
    }
}

proof fn lemma_trim_inside(x: Seq<char>)
    ensures
        trim(x).len() > 0 ==> !is_ws(trim(x)[0]) && !is_ws(trim(x).last()),
        forall|j: int| 0 <= j < trim(x).len() ==> exists|m: int| 0 <= m < x.len() && #[trigger] trim(x)[j] == x[m],
{
    let u = trim_start(x);
    lemma_trim_start_suffix(x);
    lemma_trim_end_prefix(u);
    let t = trim(x);
    assert forall|j: int| 0 <= j < t.len() implies exists|m: int| 0 <= m < x.len() && #[trigger] t[j] == x[m] by {
        assert(t[j] == u[j]);
        assert(u[j] == x[x.len() - u.len() + j]);
    }
    if t.len() > 0 {
        assert(t[0] == u[0]);
    }
}

/// The lines a note is written with: indented by two spaces, not blank,
/// and plain.
proof fn lemma_note_lines_shape(ls: Seq<Seq<char>>)
    requires
        forall|k: int| 0 <= k < ls.len() ==> no_char(#[trigger] ls[k], '\n'),
    ensures
        forall|k: int| 0 <= k < note_lines_from(ls).len() ==> {
            let l = #[trigger] note_lines_from(ls)[k];
            &&& is_prefix("  "@, l)
            &&& trim(l).len() > 0
            &&& plain_line(l)
        },
    decreases ls.len(),
{
    if ls.len() > 0 {
        let dl = ls.drop_last();
        assert forall|k: int| 0 <= k < dl.len() implies no_char(#[trigger] dl[k], '\n') by {
            assert(dl[k] == ls[k]);
        }
        lemma_note_lines_shape(dl);
        let x = ls.last();
        let t = trim(x);
        if t.len() > 0 {
            reveal_strlit("  ");
            let l = "  "@ + t;
            let nl = note_lines_from(ls);
            assert(nl == note_lines_from(dl).push(l));
            lemma_trim_inside(x);
            assert(no_char(x, '\n'));
            assert(is_prefix("  "@, l)) by {
                assert(l.take(2) =~= "  "@);
            }
            assert(is_ws(' ')) by {
                assert((' ' as u32) == 32);
            }
            assert(l[0] == ' ');
            assert(l.drop_first() =~= seq![' '] + t);
            assert((seq![' '] + t)[0] == ' ');
            assert((seq![' '] + t).drop_first() =~= t);
            assert(trim_start(t) == t);
            assert(trim_start(seq![' '] + t) == trim_start(t));
            assert(trim_start(l) == trim_start(seq![' '] + t));
            assert(trim_start(l) == t);
            assert(trim_end(t) == t);
            assert(trim(l).len() > 0);
            assert(plain_line(l)) by {
                assert forall|j: int| 0 <= j < l.len() implies l[j] != '\n' by {
                    if j >= 2 {
                        assert(l[j] == t[j - 2]);
                        let m = choose|m: int| 0 <= m < x.len() && #[trigger] t[j - 2] == x[m];
                    }
                }
                assert(l.last() == t.last());
                assert(is_ws('\r')) by {
                    assert(('\r' as u32) == 13);
                }
            }
            assert forall|k: int| 0 <= k < nl.len() implies {
                let m = #[trigger] nl[k];
                &&& is_prefix("  "@, m)
                &&& trim(m).len() > 0
                &&& plain_line(m)
            } by {
                if k < nl.len() - 1 {
                    assert(nl[k] == note_lines_from(dl)[k]);
                }
            }
        }
    }
}

proof fn lemma_note_run(ls: Seq<Seq<char>>, j: int)
    requires
        0 <= j <= ls.len(),
        forall|k: int| j <= k < ls.len() ==> !ends_note(#[trigger] ls[k]),
    ensures
        note_end(ls, j) == ls.len(),
    decreases ls.len() - j,
{
    if j < ls.len() {
        lemma_note_run(ls, j + 1);
    }
}

/// The file a task is added to, ending in a line break: read line by
/// line, it holds the tasks that were there.
proof fn lemma_base_lines(content: Seq<char>)
    requires
        content.len() == 0 || content.last() != '\r',
    ensures
        ({
            let base = if is_suffix("\n"@, content) { content } else { content + "\n"@ };
            &&& parse_from(lines(base), 0) == parse_spec(content)
            &&& base.len() > 0 && base.last() == '\n'
        }),
{
    reveal_strlit("\n");
    let base = if is_suffix("\n"@, content) { content } else { content + "\n"@ };
    let a = lines(base);
    assert("\n"@ =~= seq!['\n']);
    if is_suffix("\n"@, content) {
        assert(content.skip(content.len() - 1)[0] == content.last());
        assert(base == content);
    } else if content.len() > 0 {
        assert(content.last() != '\n') by {
            if content.last() == '\n' {
                assert(content.skip(content.len() - 1) =~= "\n"@);
            }
        }
        lemma_lines_add_break(content);
        assert(base == content + seq!['\n']);
        assert(a == lines(content));
    } else {
        assert(base =~= seq!['\n'] + Seq::<char>::empty());
        lemma_lines_cons(Seq::<char>::empty(), Seq::<char>::empty());
        assert(lines(Seq::<char>::empty()) =~= Seq::<Seq<char>>::empty());
        assert(a =~= seq![Seq::<char>::empty()]);
        assert(task_line(a[0]) is None);
        assert(parse_from(a, 1) =~= Seq::<TaskSpec>::empty());
        assert(parse_from(lines(content), 0) =~= Seq::<TaskSpec>::empty());
    }
}

/// The task line of a new task is plain and reads back as written.
proof fn lemma_new_line(title: Seq<char>, due: Option<Seq<char>>, priority: Option<Seq<char>>, note: Option<Seq<char>>)
    requires
        plain_title(clean_title_spec(title)),
        norm_due_spec(due).len() == 0 || date_only(norm_due_spec(due)),
    ensures
        ({
            let nt = new_task(title, due, priority, note);
            let l0 = render_spec(nt)[0];
            &&& plain_line(l0)
            &&& task_line(l0) matches Some((d, rest))
            &&& !d
            &&& title_of(rest) == nt.title
            &&& due_of(rest) == nt.due
            &&& priority_of(rest) == nt.priority
        }),
{
    reveal_strlit("high");
    reveal_strlit("low");
    reveal_strlit("normal");
    let nt = new_task(title, due, priority, note);
    let ct = clean_title_spec(title);
    let pr = nt.priority;
    assert(pr == "high"@ || pr == "normal"@ || pr == "low"@);
    lemma_line_shape(ct, nt.due, pr, false);
    law_written_task_reads_back(ct, nt.due, pr, false);
    let t0 = TaskSpec { line: 0, raw: seq![], span: 0, title: ct, due: nt.due, priority: pr, note: seq![], done: false };
    assert(render_spec(nt)[0] == render_spec(t0)[0]);
    let l0 = render_spec(nt)[0];
    lemma_marks();
    reveal_strlit("- [");
    reveal_strlit(" ");
    reveal_strlit("] ");
    lemma_clean_title_chars(title);
    let mark = priority_mark_spec(pr);
    assert(mark.len() == 0 || mark == "!高"@ || mark == "!低"@);
    assert(is_ws('\n') && is_ws('\r')) by {
        assert(('\n' as u32) == 10);
        assert(('\r' as u32) == 13);
    }
    let d = due_piece(nt.due);
    let m = mark_piece(mark);
    assert(l0 == "- ["@ + " "@ + "] "@ + (ct + d + m));
    assert forall|j: int| 0 <= j < l0.len() implies l0[j] != '\n' by {
        if 6 <= j < 6 + ct.len() {
            assert(l0[j] == ct[j - 6]);
            assert(spaced_char(ct[j - 6]));
        } else if 6 + ct.len() <= j < 6 + ct.len() + d.len() {
            assert(l0[j] == d[j - 6 - ct.len()]);
            if j - 6 - ct.len() >= 2 {
                lemma_date_chars(nt.due, j - 8 - ct.len());
            }
        } else if j >= 6 + ct.len() + d.len() {
            assert(l0[j] == m[j - 6 - ct.len() - d.len()]);
        }
    }
    if m.len() > 0 {
        assert(l0.last() == m.last());
    } else if d.len() > 0 {
        assert(l0.last() == d.last());
        lemma_date_chars(nt.due, nt.due.len() - 1);
    } else {
        assert(l0.last() == ct.last());
    }
}

/// Lines `b` after `a`, a task line and then its notes, add one task.
proof fn lemma_parse_added(a: Seq<Seq<char>>, b: Seq<Seq<char>>)
    requires
        b.len() > 0,
        task_line(b[0]) is Some,
        forall|k: int| 1 <= k < b.len() ==> !ends_note(#[trigger] b[k]),
    ensures
        parse_from(a + b, 0) == parse_from(a, 0) + seq![
            task_at(a + b, a.len() as int, (a + b).len() as int, task_line(b[0])->Some_0.0, task_line(b[0])->Some_0.1),
        ],
{
    assert(ends_note(b[0]));
    lemma_parse_prefix(a, b, 0);
    let ab = a + b;
    assert(ab[a.len() as int] == b[0]);
    assert forall|k: int| a.len() + 1 <= k < ab.len() implies !ends_note(#[trigger] ab[k]) by {
        assert(ab[k] == b[k - a.len()]);
    }
    lemma_note_run(ab, a.len() + 1int);
    assert(parse_from(ab, ab.len() as int) =~= Seq::<TaskSpec>::empty());
}

/// A task added to the list file with a title that reads back as itself,
/// a `dddd-dd-dd` date or none, and note lines that are no task
/// lines, is read back as the last task of the file: the tasks that were
/// there come first and unchanged, and the new one has the state, title,
/// date and priority it was added with. Where the file does not end in a
/// carriage return (a line break after it would change its last line).
pub proof fn law_added_task_is_listed_last(
    content: Seq<char>,
    title: Seq<char>,
    due: Option<Seq<char>>,
    priority: Option<Seq<char>>,
    note: Option<Seq<char>>,
)
    requires
        plain_title(clean_title_spec(title)),
        norm_due_spec(due).len() == 0 || date_only(norm_due_spec(due)),
        content.len() == 0 || content.last() != '\r',
        forall|k: int|
            0 <= k < note_lines(new_task(title, due, priority, note).note).len() ==> #[trigger] task_line(
                note_lines(new_task(title, due, priority, note).note)[k],
            ) is None,
    ensures
        add_spec(content, title, due, priority, note) is Ok,
        ({
            let old = parse_spec(content);
            let new = parse_spec(add_spec(content, title, due, priority, note)->Ok_0);
            let nt = new_task(title, due, priority, note);
            &&& new.len() == old.len() + 1
            &&& forall|k: int| 0 <= k < old.len() ==> #[trigger] new[k] == old[k]
            &&& !new.last().done
            &&& new.last().title == nt.title
            &&& new.last().due == nt.due
            &&& new.last().priority == nt.priority
        }),
{
    reveal_strlit("\n");
    let nt = new_task(title, due, priority, note);
    assert(clean_title_spec(title).len() > 0);
    let base = if is_suffix("\n"@, content) { content } else { content + "\n"@ };
    let b = render_spec(nt);
    let v = base + with_breaks(b);
    assert(add_spec(content, title, due, priority, note) == Ok::<Seq<char>, Seq<char>>(v));
    lemma_base_lines(content);
    let a = lines(base);
    lemma_new_line(title, due, priority, note);
    let nls = note_lines(nt.note);
    assert(b == seq![b[0]] + nls);
    lemma_lines_no_break(remove_cr(nt.note));
    lemma_note_lines_shape(lines(remove_cr(nt.note)));
    assert forall|k: int| 0 <= k < b.len() implies plain_line(#[trigger] b[k]) by {
        if k > 0 {
            assert(b[k] == nls[k - 1]);
        }
    }
    lemma_lines_with_breaks(b);
    lemma_lines_append(base, with_breaks(b));
    assert(lines(v) == a + b);
    assert forall|k: int| 1 <= k < b.len() implies !ends_note(#[trigger] b[k]) by {
        assert(b[k] == nls[k - 1]);
        assert(task_line(nls[k - 1]) is None);
    }
    lemma_parse_added(a, b);
}

proof fn lemma_join_is_with_breaks(ls: Seq<Seq<char>>)
    requires
        ls.len() > 0,
    ensures
        join(ls, "\n"@) + seq!['\n'] == with_breaks(ls),
    decreases ls.len(),
{
    reveal_strlit("\n");
    if ls.len() == 1 {
        assert(ls.drop_last() =~= Seq::<Seq<char>>::empty());
        assert(with_breaks(ls.drop_last()) =~= Seq::<char>::empty());
        assert(ls.last() == ls[0]);
        assert(with_breaks(ls) == with_breaks(ls.drop_last()) + ls.last() + "\n"@);
        assert(with_breaks(ls) =~= ls[0] + seq!['\n']);
    } else {
        lemma_join_is_with_breaks(ls.drop_last());
        assert(join(ls, "\n"@) + seq!['\n'] =~= with_breaks(ls));
    }
}

/// A file written back from its lines reads back as those lines: where no
/// line holds a line break or ends in a carriage return, and the last line
/// is not blank (a blank last line would read as the end of the file).
/// Updating and deleting a task write the list file back this way, so the
/// lines around the task stay as they were.
pub proof fn law_written_lines_read_back(content: Seq<char>, ls: Seq<Seq<char>>)
    requires
        ls.len() > 0,
        ls.last().len() > 0,
        forall|k: int| 0 <= k < ls.len() ==> plain_line(#[trigger] ls[k]),
    ensures
        lines(rejoin(content, ls)) == ls,
{
    reveal_strlit("\n");
    let out = join(ls, "\n"@);
    lemma_join_is_with_breaks(ls);
    lemma_lines_with_breaks(ls);
    assert(out.len() > 0 && out.last() == ls.last().last()) by {
        if ls.len() == 1 {
        } else {
            assert(out == join(ls.drop_last(), "\n"@) + "\n"@ + ls.last());
        }
    }
    assert(plain_line(ls.last()));
    assert(ls.last().last() != '\n');
    assert(!is_suffix("\n"@, out)) by {
        if is_suffix("\n"@, out) {
            assert(out.skip(out.len() - 1)[0] == out.last());
        }
    }
    lemma_lines_add_break(out);
    assert(out + "\n"@ == out + seq!['\n']);
}

/// A note that is read back as written: trimmed, on one line, and not
/// itself a task line once indented.
pub open spec fn plain_note(n: Seq<char>) -> bool {
    &&& trim(n) == n
    &&& no_char(n, '\n') && no_char(n, '\r')
    &&& (n.len() == 0 || task_line("  "@ + n) is None)
}

proof fn lemma_no_cr_kept(n: Seq<char>)
    requires
        no_char(n, '\r'),
    ensures
        remove_cr(n) == n,
    decreases n.len(),
{
    if n.len() == 0 {
        assert(n.filter(|c: char| c != '\r') =~= n) by {
            reveal(Seq::filter);
        }
    } else {
        let d = n.drop_last();
        assert(no_char(d, '\r')) by {
            assert forall|j: int| 0 <= j < d.len() implies d[j] != '\r' by {
                assert(d[j] == n[j]);
            }
        }
        lemma_no_cr_kept(d);
        assert(d.push(n.last()) =~= n);
        d.lemma_filter_push(n.last(), |c: char| c != '\r');
        assert(n.last() == n[n.len() - 1]);
    }
}

proof fn lemma_plain_note_lines(n: Seq<char>)
    requires
        plain_note(n),
    ensures
        note_lines(n) == (if n.len() == 0 { Seq::<Seq<char>>::empty() } else { seq!["  "@ + n] }),
{
    lemma_no_cr_kept(n);
    if n.len() == 0 {
        assert(lines(n) =~= Seq::<Seq<char>>::empty());
        assert(note_lines_from(Seq::<Seq<char>>::empty()) =~= Seq::<Seq<char>>::empty());
    } else {
        lemma_find_char_from(n, '\n', 0);
        assert(find_char_from(n, '\n', 0) is None);
        assert(lines(n) == seq![n]);
        assert(seq![n].drop_last() =~= Seq::<Seq<char>>::empty());
        assert(seq![n].last() == n);
        assert(note_lines_from(seq![n].drop_last()) =~= Seq::<Seq<char>>::empty());
        assert(trim(n) == n);
        assert(note_lines_from(seq![n]) == note_lines_from(seq![n].drop_last()).push("  "@ + trim(n)));
        assert(note_lines_from(seq![n]) =~= Seq::<Seq<char>>::empty().push("  "@ + n));
    }
}

/// A task written alone, with a plain title, a `dddd-dd-dd` date or
/// none, one of the three priorities and a plain note, is read back whole:
/// one task, on the first line, spanning its written lines, with the
/// title, date, priority, note and state it was written with.
pub proof fn law_rendered_task_reads_back_whole(t: TaskSpec)
    requires
        plain_title(t.title),
        no_char(t.title, '\n'),
        t.due.len() == 0 || date_only(t.due),
        t.priority == "high"@ || t.priority == "normal"@ || t.priority == "low"@,
        plain_note(t.note),
    ensures
        parse_spec(join(render_spec(t), "\n"@)) == seq![
            TaskSpec {
                line: 0,
                raw: render_spec(t)[0],
                span: render_spec(t).len(),
                title: t.title,
                due: t.due,
                priority: t.priority,
                note: t.note,
                done: t.done,
            },
        ],
{
    reveal_strlit("\n");
    reveal_strlit("  ");
    reveal_strlit(" ");
    let b = render_spec(t);
    let t0 = TaskSpec { line: 0, raw: seq![], span: 0, title: t.title, due: t.due, priority: t.priority, note: seq![], done: t.done };
    lemma_line_shape(t.title, t.due, t.priority, t.done);
    law_written_task_reads_back(t.title, t.due, t.priority, t.done);
    assert(b[0] == render_spec(t0)[0]);
    let l0 = b[0];
    lemma_plain_note_lines(t.note);
    let nls = note_lines(t.note);
    assert(b == seq![l0] + nls);
    // the lines are plain
    lemma_marks();
    let mark = priority_mark_spec(t.priority);
    assert(mark.len() == 0 || mark == "!高"@ || mark == "!低"@);
    assert(is_ws('\n') && is_ws('\r')) by {
        assert(('\n' as u32) == 10);
        assert(('\r' as u32) == 13);
    }
    assert(plain_line(l0)) by {
        let d = due_piece(t.due);
        let m = mark_piece(mark);
        reveal_strlit("- [");
        reveal_strlit("] ");
        reveal_strlit("x");
        let x: Seq<char> = if t.done { "x"@ } else { " "@ };
        assert(l0 == "- ["@ + x + "] "@ + (t.title + d + m));
        assert forall|j: int| 0 <= j < l0.len() implies l0[j] != '\n' by {
            if 6 <= j < 6 + t.title.len() {
                assert(l0[j] == t.title[j - 6]);
                assert(t.title[j - 6] != '\n');
            } else if 6 + t.title.len() <= j < 6 + t.title.len() + d.len() {
                assert(l0[j] == d[j - 6 - t.title.len()]);
                if j - 6 - t.title.len() >= 2 {
                    lemma_date_chars(t.due, j - 8 - t.title.len());
                }
            } else if j >= 6 + t.title.len() + d.len() {
                assert(l0[j] == m[j - 6 - t.title.len() - d.len()]);
            }
        }
        if m.len() > 0 {
            assert(l0.last() == m.last());
        } else if d.len() > 0 {
            assert(l0.last() == d.last());
            lemma_date_chars(t.due, t.due.len() - 1);
        } else {
            assert(l0.last() == t.title.last());
        }
    }
    if t.note.len() > 0 {
        let nl = "  "@ + t.note;
        assert(plain_line(nl)) by {
            assert forall|j: int| 0 <= j < nl.len() implies nl[j] != '\n' by {
                if j >= 2 {
                    assert(nl[j] == t.note[j - 2]);
                }
            }
            assert(nl.last() == t.note.last());
        }
        assert(!ends_note(nl)) by {
            assert(is_prefix("  "@, nl)) by {
                assert(nl.take(2) =~= "  "@);
            }
            lemma_note_trim(t.note);
        }
    }
    assert forall|k: int| 0 <= k < b.len() implies plain_line(#[trigger] b[k]) by {
        if k > 0 {
            assert(b[k] == nls[k - 1]);
        }
    }
    assert(b.last().len() > 0) by {
        if nls.len() > 0 {
            assert(b.last() == nls[0]);
        }
    }
    law_written_lines_read_back(seq![], b);
    assert(rejoin(seq![], b) == join(b, "\n"@)) by {
        assert(!is_suffix("\n"@, Seq::<char>::empty()));
    }
    assert forall|k: int| 1 <= k < b.len() implies !ends_note(#[trigger] b[k]) by {
        assert(b[k] == nls[k - 1]);
    }
    lemma_parse_added(Seq::<Seq<char>>::empty(), b);
    assert(Seq::<Seq<char>>::empty() + b =~= b);
    assert(parse_from(Seq::<Seq<char>>::empty(), 0) =~= Seq::<TaskSpec>::empty());
    let sub = b.subrange(1, b.len() as int);
    assert(sub =~= nls);
    assert(join(trim_all(nls), " "@) == t.note) by {
        if t.note.len() > 0 {
            lemma_note_trim(t.note);
            assert(trim_all(nls) =~= seq![t.note]);
        } else {
            assert(trim_all(nls) =~= Seq::<Seq<char>>::empty());
        }
    }
}

/// An indented plain note trims back to itself.
proof fn lemma_note_trim(n: Seq<char>)
    requires
        trim(n) == n,
        n.len() > 0,
    ensures
        trim("  "@ + n) == n,
{
    reveal_strlit("  ");
    let l = "  "@ + n;
    let ts = trim_start(n);
    lemma_trim_start_suffix(n);
    lemma_trim_end_prefix(ts);
    assert(ts.len() == n.len());
    assert(ts =~= n.skip(0));
    assert(ts == n);
    assert(trim_end(n) == n);
    assert(is_ws(' ')) by {
        assert((' ' as u32) == 32);
    }
    assert(l[0] == ' ');
    assert(l.drop_first() =~= seq![' '] + n);
    assert((seq![' '] + n)[0] == ' ');
    assert((seq![' '] + n).drop_first() =~= n);
    assert(trim_start(seq![' '] + n) == trim_start(n));
    assert(trim_start(l) == n);
}

// ───────────────────────── writing a task back ─────────────────────────

/// The lines a task is written on: plain, not empty, and the first one a
/// task line that reads back its state, title, date and priority.
proof fn lemma_written_lines(t: TaskSpec)
    requires
        plain_title(t.title),
        no_char(t.title, '\n'),
        t.due.len() == 0 || date_only(t.due),
        t.priority == "high"@ || t.priority == "normal"@ || t.priority == "low"@,
    ensures
        forall|k: int| 0 <= k < render_spec(t).len() ==> plain_line(#[trigger] render_spec(t)[k]) && render_spec(t)[k].len()
            > 0,
        render_spec(t).len() >= 1,
        task_line(render_spec(t)[0]) matches Some((dn, rest)) && dn == t.done && title_of(rest) == t.title
            && due_of(rest) == t.due && priority_of(rest) == t.priority,
{
    let b = render_spec(t);
    let t0 = TaskSpec { line: 0, raw: seq![], span: 0, title: t.title, due: t.due, priority: t.priority, note: seq![], done: t.done };
    lemma_line_shape(t.title, t.due, t.priority, t.done);
    law_written_task_reads_back(t.title, t.due, t.priority, t.done);
    assert(b[0] == render_spec(t0)[0]);
    let l0 = b[0];
    let nls = note_lines(t.note);
    assert(b == seq![l0] + nls);
    lemma_lines_no_break(remove_cr(t.note));
    lemma_note_lines_shape(lines(remove_cr(t.note)));
    lemma_marks();
    reveal_strlit("- [");
    reveal_strlit(" ");
    reveal_strlit("] ");
    reveal_strlit("x");
    let mark = priority_mark_spec(t.priority);
    assert(mark.len() == 0 || mark == "!高"@ || mark == "!低"@);
    assert(is_ws('\n') && is_ws('\r')) by {
        assert(('\n' as u32) == 10);
        assert(('\r' as u32) == 13);
    }
    let d = due_piece(t.due);
    let m = mark_piece(mark);
    let x: Seq<char> = if t.done { "x"@ } else { " "@ };
    assert(l0 == "- ["@ + x + "] "@ + (t.title + d + m));
    assert(plain_line(l0)) by {
        assert forall|j: int| 0 <= j < l0.len() implies l0[j] != '\n' by {
            if 6 <= j < 6 + t.title.len() {
                assert(l0[j] == t.title[j - 6]);
            } else if 6 + t.title.len() <= j < 6 + t.title.len() + d.len() {
                assert(l0[j] == d[j - 6 - t.title.len()]);
                if j - 6 - t.title.len() >= 2 {
                    lemma_date_chars(t.due, j - 8 - t.title.len());
                }
            } else if j >= 6 + t.title.len() + d.len() {
                assert(l0[j] == m[j - 6 - t.title.len() - d.len()]);
            }
        }
        if m.len() > 0 {
            assert(l0.last() == m.last());
        } else if d.len() > 0 {
            assert(l0.last() == d.last());
            lemma_date_chars(t.due, t.due.len() - 1);
        } else {
            assert(l0.last() == t.title.last());
        }
    }
    assert forall|k: int| 0 <= k < b.len() implies plain_line(#[trigger] b[k]) && b[k].len() > 0 by {
        if k > 0 {
            assert(b[k] == nls[k - 1]);
            assert(trim(nls[k - 1]).len() > 0);
            if nls[k - 1].len() == 0 {
                assert(trim(nls[k - 1]) =~= nls[k - 1]);
            }
        }
    }
}

proof fn lemma_find_line(ts: Seq<TaskSpec>, idx: int)
    ensures
        find_line(ts, idx) matches Some(t) ==> ts.contains(t) && t.line == idx,
    decreases ts.len(),
{
    if ts.len() > 0 && ts[0].line != idx {
        lemma_find_line(ts.drop_first(), idx);
        if let Some(t) = find_line(ts.drop_first(), idx) {
            let j = choose|j: int| 0 <= j < ts.drop_first().len() && ts.drop_first()[j] == t;
            assert(ts[j + 1] == t);
        }
    } else if ts.len() > 0 {
        assert(ts[0] == ts[0]);
    }
}

/// Updating a task's date writes it so that it reads back: the line of
/// the task found, read from the file written, is a task line whose date
/// is what the given date normalises to. An empty or unreadable date
/// leaves the task with none. Where the new title reads back as itself
/// and has no line break, the task keeps a known priority, and the file's
/// lines are plain (none ends in a carriage return, the last not blank).
pub proof fn law_update_sets_the_due_date(
    content: Seq<char>,
    raw: Seq<char>,
    hint: int,
    title: Option<Seq<char>>,
    d: Seq<char>,
    priority: Option<Seq<char>>,
    note: Option<Seq<char>>,
    done: Option<bool>,
    idx: int,
    cur: TaskSpec,
)
    requires
        locate_spec(lines(content), raw, hint) == Some(idx),
        find_line(parse_spec(content), idx) == Some(cur),
        ({
            let nt = match title {
                Some(v) => if clean_title_spec(v).len() > 0 { clean_title_spec(v) } else { cur.title },
                None => cur.title,
            };
            plain_title(nt) && no_char(nt, '\n')
        }),
        priority is Some || cur.priority == "high"@ || cur.priority == "normal"@ || cur.priority == "low"@,
        forall|k: int| 0 <= k < lines(content).len() ==> (#[trigger] lines(content)[k]).len() == 0
            || lines(content)[k].last() != '\r',
        lines(content).len() == 0 || lines(content).last().len() > 0,
    ensures
        update_spec(content, raw, hint, title, Some(d), priority, note, done) matches Ok(v)
            && task_line(lines(v)[idx]) matches Some((_, r)) && due_of(r) == norm_due_spec(Some(d)),
{
    reveal_strlit("high");
    reveal_strlit("low");
    reveal_strlit("normal");
    let ls = lines(content);
    lemma_find_line(parse_spec(content), idx);
    lemma_parse_from_bounds(ls, 0);
    assert(parse_spec(content) == parse_from(ls, 0));
    let j = choose|j: int| 0 <= j < parse_from(ls, 0).len() && parse_from(ls, 0)[j] == cur;
    assert(cur.line == idx && cur.span >= 1 && cur.line + cur.span <= ls.len());
    let span = cur.span as int;
    let up = updated(cur, title, Some(d), priority, note, done);
    let b = render_spec(up);
    let l = ls.take(idx) + b + ls.skip(idx + span);
    assert(up.due == norm_due_spec(Some(d)));
    assert(up.due.len() == 0 || date_only(up.due));
    lemma_written_lines(up);
    lemma_lines_no_break(content);
    assert forall|k: int| 0 <= k < l.len() implies plain_line(#[trigger] l[k]) by {
        if k < idx {
            assert(l[k] == ls[k]);
        } else if k < idx + b.len() {
            assert(l[k] == b[k - idx]);
        } else {
            assert(l[k] == ls[k - b.len() + span]);
        }
    }
    assert(l.last().len() > 0) by {
        if idx + span < ls.len() {
            assert(l.last() == ls.last());
        } else {
            assert(l.last() == b.last());
            assert(b.last() == b[b.len() - 1]);
        }
    }
    law_written_lines_read_back(content, l);
    assert(update_spec(content, raw, hint, title, Some(d), priority, note, done) == Ok::<Seq<char>, Seq<char>>(
        rejoin(content, l),
    ));
    assert(l[idx] == b[0]);
}

} // verus!
