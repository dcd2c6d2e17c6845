//! The habit list in the order the app shows it, and which files of the
//! check-in folder are month tables.

use vstd::prelude::*;
use crate::habit::Habit;
use crate::text::{byte_len, byte_prefix, chars_lt, chars_of, is_suffix, seq_lt, strictly_sorted, strs};

verus! {

/// `a` comes before `b`: by the day it was added, then by name.
pub open spec fn habit_before(a: Habit, b: Habit) -> bool {
    seq_lt(a.created@, b.created@) || (a.created@ == b.created@ && seq_lt(a.name@, b.name@))
}

/// `sorted` with `h` put after every habit that does not come after it.
pub open spec fn insert_habit(sorted: Seq<Habit>, h: Habit) -> Seq<Habit>
    decreases sorted.len(),
{
    if sorted.len() == 0 {
        seq![h]
    } else if habit_before(h, sorted.last()) {
        insert_habit(sorted.drop_last(), h).push(sorted.last())
    } else {
        sorted.push(h)
    }
}

/// The habits ordered by when they were added, then by name; habits alike
/// in both keep their order (what a stable sort gives).
pub open spec fn habits_in_order(s: Seq<Habit>) -> Seq<Habit>
    decreases s.len(),
{
    if s.len() == 0 {
        seq![]
    } else {
        insert_habit(habits_in_order(s.drop_last()), s.last())
    }
}

pub open spec fn habit_view(h: Habit) -> (Seq<char>, Seq<char>, Seq<char>, Seq<char>, bool) {
    (h.name@, h.color@, h.created@, h.note@, h.archived)
}

pub open spec fn habits_view(s: Seq<Habit>) -> Seq<(Seq<char>, Seq<char>, Seq<char>, Seq<char>, bool)> {
    s.map_values(|h: Habit| habit_view(h))
}

fn before_exec(a: &Habit, b: &Habit) -> (r: bool)
    ensures
        r == habit_before(*a, *b),
{
    let ac = chars_of(a.created.as_str());
    let bc = chars_of(b.created.as_str());
    chars_lt(&ac, &bc) || (crate::text::chars_eq(&ac, &bc) && chars_lt(
        &chars_of(a.name.as_str()),
        &chars_of(b.name.as_str()),
    ))
}

/// The habits in the order the app lists them.
pub fn list_habits(habits: Vec<Habit>) -> (r: Vec<Habit>)
    ensures
        habits_view(r@) == habits_view(habits_in_order(habits@)),
{
    let ghost s = habits@;
    let mut out: Vec<Habit> = Vec::new();
    let mut rest = habits;
    let mut i: usize = 0;
    let n = rest.len();
    assert(s.take(0) =~= Seq::<Habit>::empty());
    while i < n
        invariant
            0 <= i <= n,
            n == s.len(),
            rest@ == s.skip(i as int),
            habits_view(out@) == habits_view(habits_in_order(s.take(i as int))),
        decreases n - i,
    {
        let h = rest.remove(0);
        assert(h == s[i as int]);
        assert(s.take(i + 1).drop_last() =~= s.take(i as int));
        assert(s.take(i + 1).last() == s[i as int]);
        let ghost before = habits_in_order(s.take(i as int));
        insert_in_order(&mut out, h, Ghost(before));
        assert(rest@ =~= s.skip(i + 1));
        i += 1;
    }
    assert(s.take(n as int) =~= s);
    out
}

proof fn lemma_insert_habit_view(a: Seq<Habit>, b: Seq<Habit>, h: Habit)
    requires
        habits_view(a) == habits_view(b),
    ensures
        habits_view(insert_habit(a, h)) == habits_view(insert_habit(b, h)),
    decreases a.len(),
{
    assert(a.len() == b.len()) by {
        assert(habits_view(a).len() == a.len());
    }
    if a.len() > 0 {
        assert(habits_view(a)[a.len() - 1] == habits_view(b)[b.len() - 1]);
        assert(habit_view(a.last()) == habit_view(b.last()));
        assert(habit_before(h, a.last()) == habit_before(h, b.last()));
        assert(habits_view(a.drop_last()) =~= habits_view(a).drop_last());
        assert(habits_view(b.drop_last()) =~= habits_view(b).drop_last());
        lemma_insert_habit_view(a.drop_last(), b.drop_last(), h);
        if habit_before(h, a.last()) {
            assert(habits_view(insert_habit(a, h)) =~= habits_view(insert_habit(a.drop_last(), h)).push(
                habit_view(a.last()),
            ));
            assert(habits_view(insert_habit(b, h)) =~= habits_view(insert_habit(b.drop_last(), h)).push(
                habit_view(b.last()),
            ));
        } else {
            assert(habits_view(insert_habit(a, h)) =~= habits_view(a).push(habit_view(h)));
            assert(habits_view(insert_habit(b, h)) =~= habits_view(b).push(habit_view(h)));
        }
    } else {
        assert(habits_view(insert_habit(a, h)) =~= seq![habit_view(h)]);
        assert(habits_view(insert_habit(b, h)) =~= seq![habit_view(h)]);
    }
}

/// Puts `h` into `out` (in order) after every habit that does not come
/// after it.
fn insert_in_order(out: &mut Vec<Habit>, h: Habit, Ghost(spec_before): Ghost<Seq<Habit>>)
    requires
        habits_view(old(out)@) == habits_view(spec_before),
    ensures
        habits_view(final(out)@) == habits_view(insert_habit(spec_before, h)),
{
    let ghost s0 = out@;
    proof {
        lemma_insert_habit_view(s0, spec_before, h);
    }
    let mut p = out.len();
    assert(s0.take(p as int) =~= s0);
    assert(insert_habit(s0, h) + s0.skip(p as int) =~= insert_habit(s0, h));
    while p > 0 && before_exec(&h, &out[p - 1])
        invariant
            0 <= p <= out@.len(),
            out@ == s0,
            insert_habit(s0, h) == insert_habit(s0.take(p as int), h) + s0.skip(p as int),
        decreases p,
    {
        let ghost t = s0.take(p as int);
        assert(t.last() == s0[p - 1]);
        assert(t.drop_last() =~= s0.take(p - 1));
        assert(insert_habit(t, h) == insert_habit(s0.take(p - 1), h).push(s0[p - 1]));
        assert(insert_habit(s0.take(p - 1), h).push(s0[p - 1]) + s0.skip(p as int) =~= insert_habit(
            s0.take(p - 1),
            h,
        ) + s0.skip(p - 1));
        p -= 1;
    }
    proof {
        let t = s0.take(p as int);
        if p > 0 {
            assert(t.last() == s0[p - 1]);
            assert(insert_habit(t, h) == t.push(h));
        } else {
            assert(insert_habit(t, h) == seq![h]);
        }
    }
    let ghost hv = h;
    out.insert(p, h);
    assert(out@ =~= s0.take(p as int).push(hv) + s0.skip(p as int));
}

// ───────────────────────── month files ─────────────────────────

/// The month a file name stands for: `YYYY-MM.md`, that is a name ending
/// in `.md` whose stem takes seven bytes with a `-` at the fifth.
pub open spec fn month_stem(name: Seq<char>) -> Option<Seq<char>> {
    if is_suffix(".md"@, name) {
        let stem = name.take(name.len() - 3);
        if byte_len(stem) == 7 && (byte_prefix(stem, 4) matches Some(p) && p.len() < stem.len() && stem[p.len() as int] == '-') {
            Some(stem)
        } else {
            None
        }
    } else {
        None
    }
}

pub open spec fn is_month_stem_of(names: Seq<Seq<char>>, k: Seq<char>) -> bool {
    exists|i: int| 0 <= i < names.len() && month_stem(#[trigger] names[i]) == Some(k)
}

/// The months of the month tables among the file names `names`, in order.
pub open spec fn months_of(names: Seq<Seq<char>>) -> Seq<Seq<char>> {
    choose|ks: Seq<Seq<char>>| strictly_sorted(ks) && forall|k: Seq<char>| #[trigger] ks.contains(k) <==> is_month_stem_of(names, k)
}

fn month_stem_exec(name: &str) -> (r: Option<Vec<char>>)
    ensures
        match r {
            Some(s) => month_stem(name@) == Some(s@),
            None => month_stem(name@) is None,
        },
{
    let n = chars_of(name);
    proof {
        reveal_strlit(".md");
    }
    if !crate::text::ends_with(&n, &chars_of(".md")) {
        return None;
    }
    let stem = crate::text::slice_chars(&n, 0, n.len() - 3);
    assert(stem@ =~= n@.take(n@.len() - 3));
    if crate::text::byte_len_upto(&stem, 8) != 7 {
        return None;
    }
    match crate::text::chars_in_bytes(&stem, 4) {
        Some(k) => {
            proof {
                crate::text::lemma_boundary_unique(stem@, 4, k as int);
            }
            if k < stem.len() && stem[k] == '-' {
                Some(stem)
            } else {
                None
            }
        },
        None => None,
    }
}

/// The months of the month tables among the file names of the check-in
/// folder (a folder holds each name once), in order.
pub fn month_files(names: &Vec<String>) -> (r: Vec<String>)
    requires
        forall|i: int, j: int| 0 <= i < j < names@.len() ==> names@[i]@ != names@[j]@,
    ensures
        strs(r@) == months_of(strs(names@)),
{
    let ghost nv = strs(names@);
    let mut keys: Vec<Vec<char>> = Vec::new();
    let mut i: usize = 0;
    while i < names.len()
        invariant
            0 <= i <= names@.len(),
            nv == strs(names@),
            strictly_sorted(crate::text::keys_view(keys@)),
            forall|k: Seq<char>|
                #[trigger] crate::text::keys_view(keys@).contains(k) <==> exists|q: int|
                    0 <= q < i && month_stem(#[trigger] nv[q]) == Some(k),
        decreases names.len() - i,
    {
        assert(nv[i as int] == names@[i as int]@);
        match month_stem_exec(names[i].as_str()) {
            Some(st) => crate::text::insert_sorted(&mut keys, &st),
            None => {},
        }
        proof {
            assert forall|k: Seq<char>|
                #[trigger] crate::text::keys_view(keys@).contains(k) <==> exists|q: int|
                    0 <= q < i + 1 && month_stem(#[trigger] nv[q]) == Some(k) by {
                if exists|q: int| 0 <= q < i + 1 && month_stem(#[trigger] nv[q]) == Some(k) {
                    let q = choose|q: int| 0 <= q < i + 1 && month_stem(#[trigger] nv[q]) == Some(k);
                    if q < i {
                        assert(exists|q2: int| 0 <= q2 < i && month_stem(#[trigger] nv[q2]) == Some(k));
                    }
                }
            }
        }
        i += 1;
    }
    let ghost ks = crate::text::keys_view(keys@);
    proof {
        let c = months_of(nv);
        assert(strictly_sorted(ks) && forall|k: Seq<char>| #[trigger] ks.contains(k) <==> is_month_stem_of(nv, k));
        crate::text::lemma_strictly_sorted_unique(c, ks);
    }
    let r = crate::text::to_strings(&keys);
    r
}

} // verus!
