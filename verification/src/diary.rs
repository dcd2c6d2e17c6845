//! The diary list: diaries grouped by month, newest month first, each
//! month's diaries newest date first.

use vstd::prelude::*;
use crate::index::{metas_view, NoteMeta, NoteMetaSpec};
use crate::text::{byte_len, byte_prefix, chars_of, is_prefix, keys_view, seq_lt, split_char, strictly_sorted};
use crate::tree::strip_all;

verus! {

/// One month of diaries.
#[derive(Debug)]
pub struct DiaryMonth {
    /// `YYYY-MM`
    pub month: String,
    pub label: String,
    pub items: Vec<NoteMeta>,
}

pub open spec fn month_view(d: DiaryMonth) -> (Seq<char>, Seq<char>, Seq<NoteMetaSpec>) {
    (d.month@, d.label@, metas_view(d.items@))
}

pub open spec fn months_view(v: Seq<DiaryMonth>) -> Seq<(Seq<char>, Seq<char>, Seq<NoteMetaSpec>)> {
    v.map_values(|d: DiaryMonth| month_view(d))
}

/// The month a diary goes under: the first seven bytes of its date when
/// it has that many, else the first folder of its path below the diary
/// folder.
pub open spec fn month_of(m: NoteMetaSpec, prefix: Seq<char>) -> Seq<char> {
    if byte_len(m.date) >= 7 {
        byte_prefix(m.date, 7)->Some_0
    } else {
        split_char(strip_all(m.path, prefix), '/')[0]
    }
}

/// The date can be cut after seven bytes where the month is read from it
/// (`&date[..7]` panics inside a character).
pub open spec fn month_cut_ok(m: NoteMetaSpec) -> bool {
    byte_len(m.date) >= 7 ==> byte_prefix(m.date, 7) is Some
}

pub open spec fn is_month_of(s: Seq<NoteMetaSpec>, prefix: Seq<char>, k: Seq<char>) -> bool {
    exists|i: int| 0 <= i < s.len() && is_prefix(prefix, (#[trigger] s[i]).path) && month_of(s[i], prefix) == k
}

/// The months of the diaries of `s` (those under `prefix`), newest first.
pub open spec fn diary_months(s: Seq<NoteMetaSpec>, prefix: Seq<char>) -> Seq<Seq<char>> {
    (choose|ks: Seq<Seq<char>>|
        strictly_sorted(ks) && forall|k: Seq<char>| #[trigger] ks.contains(k) <==> is_month_of(s, prefix, k)).reverse()
}

/// The diaries of `s` in `month`, in the order of `s`.
pub open spec fn in_month(s: Seq<NoteMetaSpec>, prefix: Seq<char>, month: Seq<char>) -> Seq<NoteMetaSpec>
    decreases s.len(),
{
    if s.len() == 0 {
        seq![]
    } else {
        let rest = in_month(s.drop_last(), prefix, month);
        if is_prefix(prefix, s.last().path) && month_of(s.last(), prefix) == month {
            rest.push(s.last())
        } else {
            rest
        }
    }
}

/// `sorted` (newest date first) with `m` after every entry whose date is
/// not older than its own.
pub open spec fn insert_by_date(sorted: Seq<NoteMetaSpec>, m: NoteMetaSpec) -> Seq<NoteMetaSpec>
    decreases sorted.len(),
{
    if sorted.len() == 0 {
        seq![m]
    } else if seq_lt(sorted.last().date, m.date) {
        insert_by_date(sorted.drop_last(), m).push(sorted.last())
    } else {
        sorted.push(m)
    }
}

/// `s` ordered newest date first; entries with the same date keep their
/// order (what a stable sort by date, descending, gives).
pub open spec fn by_date_desc(s: Seq<NoteMetaSpec>) -> Seq<NoteMetaSpec>
    decreases s.len(),
{
    if s.len() == 0 {
        seq![]
    } else {
        insert_by_date(by_date_desc(s.drop_last()), s.last())
    }
}

/// The diary list of the documents `s` (most recently changed first), with
/// the diary folder `diary_dir`.
pub open spec fn diaries_spec(s: Seq<NoteMetaSpec>, diary_dir: Seq<char>) -> Seq<(Seq<char>, Seq<char>, Seq<NoteMetaSpec>)> {
    let prefix = diary_dir + "/"@;
    diary_months(s, prefix).map_values(
        |mo: Seq<char>| (mo, mo, by_date_desc(in_month(s, prefix, mo))),
    )
}

fn month_of_exec(m: &NoteMeta, prefix: &[char]) -> (r: Vec<char>)
    requires
        month_cut_ok(m@),
    ensures
        r@ == month_of(m@, prefix@),
{
    let d = chars_of(m.date.as_str());
    if crate::text::byte_len_upto(&d, 7) >= 7 {
        match crate::text::byte_prefix_exec(&d, 7) {
            Some(p) => p,
            None => d,
        }
    } else {
        let rel = crate::tree::strip_all_exec(&chars_of(m.path.as_str()), prefix);
        let parts = crate::text::split_char_exec(&rel, '/');
        proof {
            crate::text::lemma_split_char_nonempty(rel@, '/');
        }
        crate::text::slice_chars(&parts[0], 0, parts[0].len())
    }
}

/// Puts `m` into `sorted` (newest date first) after every entry whose date
/// is not older.
fn insert_dated(sorted: &mut Vec<NoteMeta>, m: NoteMeta)
    ensures
        metas_view(final(sorted)@) == insert_by_date(metas_view(old(sorted)@), m@),
{
    let ghost s0 = metas_view(sorted@);
    let md = chars_of(m.date.as_str());
    let mut p = sorted.len();
    assert(s0.take(p as int) =~= s0);
    assert(insert_by_date(s0, m@) + s0.skip(p as int) =~= insert_by_date(s0, m@));
    // the entries after `p` are older than `m`
    while p > 0 && crate::text::chars_lt(&chars_of(sorted[p - 1].date.as_str()), &md)
        invariant
            0 <= p <= sorted@.len(),
            sorted@ == old(sorted)@,
            s0 == metas_view(sorted@),
            md@ == m@.date,
            insert_by_date(s0, m@) == insert_by_date(s0.take(p as int), m@) + s0.skip(p as int),
        decreases p,
    {
        let ghost t = s0.take(p as int);
        assert(t.last() == s0[p - 1]);
        assert(t.drop_last() =~= s0.take(p - 1));
        assert(s0.skip(p - 1) =~= seq![s0[p - 1]] + s0.skip(p as int));
        assert(insert_by_date(t, m@) == insert_by_date(s0.take(p - 1), m@).push(s0[p - 1]));
        assert(insert_by_date(s0.take(p - 1), m@).push(s0[p - 1]) + s0.skip(p as int) =~= insert_by_date(
            s0.take(p - 1),
            m@,
        ) + s0.skip(p - 1));
        p -= 1;
    }
    proof {
        let t = s0.take(p as int);
        if p > 0 {
            assert(t.last() == s0[p - 1]);
            assert(!seq_lt(t.last().date, m@.date));
            assert(insert_by_date(t, m@) == t.push(m@));
        } else {
            assert(insert_by_date(t, m@) == seq![m@]);
        }
    }
    let ghost mv = m@;
    sorted.insert(p, m);
    proof {
        assert(metas_view(sorted@) =~= s0.take(p as int).push(mv) + s0.skip(p as int));
    }
}

/// The diaries of the documents `notes` (most recently changed first),
/// grouped by month, newest month first, each month newest date first.
pub fn list_diaries(diary_dir: &str, notes: &Vec<NoteMeta>) -> (r: Vec<DiaryMonth>)
    requires
        forall|i: int|
            0 <= i < notes@.len() && is_prefix(diary_dir@ + "/"@, (#[trigger] notes@[i])@.path) ==> month_cut_ok(
                notes@[i]@,
            ),
    ensures
        months_view(r@) == diaries_spec(metas_view(notes@), diary_dir@),
{
    let mut prefix = chars_of(diary_dir);
    crate::text::push_all(&mut prefix, &chars_of("/"));
    let ghost pv = prefix@;
    let ghost s = metas_view(notes@);
    // the month of each diary, and the months in order
    let mut months: Vec<Vec<char>> = Vec::new();
    let mut month_at: Vec<Option<Vec<char>>> = Vec::new();
    let mut i: usize = 0;
    while i < notes.len()
        invariant
            0 <= i <= notes@.len(),
            s == metas_view(notes@),
            prefix@ == pv,
            pv == diary_dir@ + "/"@,
            forall|q: int| 0 <= q < notes@.len() && is_prefix(pv, (#[trigger] notes@[q])@.path) ==> month_cut_ok(notes@[q]@),
            month_at@.len() == i,
            forall|q: int|
                0 <= q < i ==> (#[trigger] month_at@[q] matches Some(mo) ==> (is_prefix(pv, s[q].path) && mo@
                    == month_of(s[q], pv))) && (month_at@[q] is None ==> !is_prefix(pv, s[q].path)),
            strictly_sorted(keys_view(months@)),
            forall|k: Seq<char>|
                #[trigger] keys_view(months@).contains(k) <==> exists|q: int|
                    0 <= q < i && is_prefix(pv, (#[trigger] s[q]).path) && month_of(s[q], pv) == k,
        decreases notes.len() - i,
    {
        assert(s[i as int] == notes@[i as int]@);
        if crate::text::starts_with(&chars_of(notes[i].path.as_str()), &prefix) {
            let mo = month_of_exec(&notes[i], &prefix);
            crate::text::insert_sorted(&mut months, &mo);
            month_at.push(Some(mo));
        } else {
            month_at.push(None);
        }
        proof {
            assert forall|k: Seq<char>|
                #[trigger] keys_view(months@).contains(k) <==> exists|q: int|
                    0 <= q < i + 1 && is_prefix(pv, (#[trigger] s[q]).path) && month_of(s[q], pv) == k by {
                if exists|q: int| 0 <= q < i + 1 && is_prefix(pv, (#[trigger] s[q]).path) && month_of(s[q], pv) == k {
                    let q = choose|q: int| 0 <= q < i + 1 && is_prefix(pv, (#[trigger] s[q]).path) && month_of(s[q], pv) == k;
                    if q < i {
                        assert(exists|q2: int| 0 <= q2 < i && is_prefix(pv, (#[trigger] s[q2]).path) && month_of(s[q2], pv) == k);
                    }
                }
            }
        }
        i += 1;
    }
    let ghost ks = keys_view(months@);
    proof {
        let c = choose|ks2: Seq<Seq<char>>|
            strictly_sorted(ks2) && forall|k: Seq<char>| #[trigger] ks2.contains(k) <==> is_month_of(s, pv, k);
        assert(strictly_sorted(ks) && forall|k: Seq<char>| #[trigger] ks.contains(k) <==> is_month_of(s, pv, k));
        crate::text::lemma_strictly_sorted_unique(c, ks);
        assert(diary_months(s, pv) == ks.reverse());
    }
    let ghost want = diaries_spec(s, diary_dir@);
    let mut out: Vec<DiaryMonth> = Vec::new();
    let mut k: usize = months.len();
    while k > 0
        invariant
            0 <= k <= months@.len(),
            ks == keys_view(months@),
            s == metas_view(notes@),
            pv == diary_dir@ + "/"@,
            month_at@.len() == notes@.len(),
            forall|q: int|
                0 <= q < notes@.len() ==> (#[trigger] month_at@[q] matches Some(mo) ==> (is_prefix(pv, s[q].path) && mo@
                    == month_of(s[q], pv))) && (month_at@[q] is None ==> !is_prefix(pv, s[q].path)),
            want == diaries_spec(s, diary_dir@),
            want.len() == ks.len(),
            diary_months(s, pv) == ks.reverse(),
            out@.len() == ks.len() - k,
            forall|q: int| 0 <= q < out@.len() ==> month_view(#[trigger] out@[q]) == want[q],
        decreases k,
    {
        k -= 1;
        let key = &months[k];
        let mut items: Vec<NoteMeta> = Vec::new();
        let mut j: usize = 0;
        assert(s.take(0) =~= Seq::<NoteMetaSpec>::empty());
        while j < notes.len()
            invariant
                0 <= j <= notes@.len(),
                s == metas_view(notes@),
                month_at@.len() == notes@.len(),
                forall|q: int|
                    0 <= q < notes@.len() ==> (#[trigger] month_at@[q] matches Some(mo) ==> (is_prefix(pv, s[q].path)
                        && mo@ == month_of(s[q], pv))) && (month_at@[q] is None ==> !is_prefix(pv, s[q].path)),
                metas_view(items@) == by_date_desc(in_month(s.take(j as int), pv, key@)),
            decreases notes.len() - j,
        {
            assert(s.take(j + 1).drop_last() =~= s.take(j as int));
            assert(s.take(j + 1).last() == s[j as int]);
            assert(s[j as int] == notes@[j as int]@);
            let hit = match &month_at[j] {
                Some(mo) => crate::text::chars_eq(mo, key),
                None => false,
            };
            let ghost prev = in_month(s.take(j as int), pv, key@);
            if hit {
                insert_dated(&mut items, crate::index::copy_meta(&notes[j]));
                proof {
                    assert(in_month(s.take(j + 1), pv, key@) == prev.push(s[j as int]));
                    assert(prev.push(s[j as int]).drop_last() =~= prev);
                }
            } else {
                assert(in_month(s.take(j + 1), pv, key@) == prev);
            }
            j += 1;
        }
        assert(s.take(s.len() as int) =~= s);
        let ghost q = out@.len() as int;
        assert(ks.reverse()[q] == ks[k as int]);
        out.push(DiaryMonth { month: crate::text::string_of(key), label: crate::text::string_of(key), items });
        assert(month_view(out@[q]) == want[q]);
    }
    proof {
        assert(months_view(out@) =~= want);
    }
    out
}


// ───────────────────────── laws ─────────────────────────

/// Every entry of a month's group is a diary of that month, and every
/// diary of that month is in it.
pub proof fn law_month_groups_hold_their_diaries(s: Seq<NoteMetaSpec>, prefix: Seq<char>, month: Seq<char>, m: NoteMetaSpec)
    ensures
        in_month(s, prefix, month).contains(m) <==> (s.contains(m) && is_prefix(prefix, m.path) && month_of(m, prefix)
            == month),
    decreases s.len(),
{
    if s.len() > 0 {
        law_month_groups_hold_their_diaries(s.drop_last(), prefix, month, m);
        let rest = in_month(s.drop_last(), prefix, month);
        if s.contains(m) {
            let k = choose|k: int| 0 <= k < s.len() && s[k] == m;
            if k < s.len() - 1 {
                assert(s.drop_last()[k] == m);
            }
        }
        if s.drop_last().contains(m) {
            let k = choose|k: int| 0 <= k < s.drop_last().len() && s.drop_last()[k] == m;
            assert(s[k] == m);
        }
        if is_prefix(prefix, s.last().path) && month_of(s.last(), prefix) == month {
            assert(rest.push(s.last()).contains(m) <==> (rest.contains(m) || m == s.last())) by {
                if rest.push(s.last()).contains(m) {
                    let k = choose|k: int| 0 <= k < rest.push(s.last()).len() && rest.push(s.last())[k] == m;
                    if k < rest.len() {
                        assert(rest[k] == m);
                    }
                }
                if rest.contains(m) {
                    let k = choose|k: int| 0 <= k < rest.len() && rest[k] == m;
                    assert(rest.push(s.last())[k] == m);
                }
                if m == s.last() {
                    assert(rest.push(s.last())[rest.len() as int] == m);
                }
            }
        }
        if m == s.last() {
            assert(s[s.len() - 1] == m);
        }
    }
}
} // verus!
