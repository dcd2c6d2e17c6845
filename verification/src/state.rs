//! What the app remembers between events: the files it wrote itself a
//! moment ago (so that watching the vault does not answer its own
//! writes), and what a batch of changes seen on disk asks for.

use vstd::prelude::*;
use crate::index::path_parts;
use crate::text::{
    chars_eq, chars_of, join, join_exec, keys_view, replace_char, replace_char_exec, slice_chars,
    string_of,
};
use crate::unicode::{lowercase, to_lowercase};

verus! {

/// How long a file the app wrote is taken for the app's own write, in
/// milliseconds.
pub const SELF_WRITE_WINDOW_MS: u64 = 1500;

/// A path as the registry compares it: `\` read as `/`, lower-cased.
pub open spec fn normalize_spec(p: Seq<char>) -> Seq<char> {
    lowercase(replace_char(p, '\\', '/'))
}

/// A path as the registry compares it.
pub fn normalize(p: &str) -> (r: String)
    ensures
        r@ == normalize_spec(p@),
{
    to_lowercase(string_of(&replace_char_exec(&chars_of(p), '\\', '/')).as_str())
}

/// The marks still inside the window at `now` (a mark later than `now`
/// counts as just made).
pub open spec fn live(marks: Seq<(Seq<char>, nat)>, now: nat) -> Seq<(Seq<char>, nat)>
    decreases marks.len(),
{
    if marks.len() == 0 {
        seq![]
    } else {
        let rest = live(marks.drop_last(), now);
        let t = marks.last().1;
        let age: int = if now >= t { now - t } else { 0 };
        if age < SELF_WRITE_WINDOW_MS {
            rest.push(marks.last())
        } else {
            rest
        }
    }
}

/// Some mark in `marks` is for `p`.
pub open spec fn marked(marks: Seq<(Seq<char>, nat)>, p: Seq<char>) -> bool {
    exists|i: int| 0 <= i < marks.len() && (#[trigger] marks[i]).0 == p
}

/// The files the app wrote a moment ago, with when (in milliseconds on a
/// clock that only moves forward).
pub struct SelfWrites {
    marks: Vec<(String, u64)>,
}

pub open spec fn marks_view(v: Seq<(String, u64)>) -> Seq<(Seq<char>, nat)> {
    v.map_values(|e: (String, u64)| (e.0@, e.1 as nat))
}

impl View for SelfWrites {
    type V = Seq<(Seq<char>, nat)>;

    closed spec fn view(&self) -> Seq<(Seq<char>, nat)> {
        marks_view(self.marks@)
    }
}

impl SelfWrites {
    pub fn new() -> (r: SelfWrites)
        ensures
            r@ == Seq::<(Seq<char>, nat)>::empty(),
    {
        let r = SelfWrites { marks: Vec::new() };
        assert(r@ =~= Seq::<(Seq<char>, nat)>::empty());
        r
    }

    fn forget_old(&mut self, now: u64)
        ensures
            final(self)@ == live(old(self)@, now as nat),
    {
        let ghost start = self@;
        let mut kept: Vec<(String, u64)> = Vec::new();
        let mut i: usize = 0;
        assert(start.take(0) =~= Seq::<(Seq<char>, nat)>::empty());
        while i < self.marks.len()
            invariant
                0 <= i <= self.marks@.len(),
                start == marks_view(self.marks@),
                marks_view(kept@) == live(start.take(i as int), now as nat),
            decreases self.marks.len() - i,
        {
            assert(start.take(i + 1).drop_last() =~= start.take(i as int));
            assert(start.take(i + 1).last() == (self.marks@[i as int].0@, self.marks@[i as int].1 as nat));
            let t = self.marks[i].1;
            let age = if now >= t { now - t } else { 0 };
            if age < SELF_WRITE_WINDOW_MS {
                let ghost before = marks_view(kept@);
                kept.push((self.marks[i].0.clone(), t));
                assert(marks_view(kept@) =~= before.push(start[i as int]));
            }
            i += 1;
        }
        assert(start.take(start.len() as int) =~= start);
        self.marks = kept;
    }

    /// Records that the app wrote `p` at `now` (and forgets the marks that
    /// are out of the window).
    pub fn mark(&mut self, p: &str, now: u64)
        ensures
            final(self)@ == live(old(self)@, now as nat).push((normalize_spec(p@), now as nat)),
    {
        self.forget_old(now);
        let ghost before = self@;
        self.marks.push((normalize(p), now));
        assert(self@ =~= before.push((normalize_spec(p@), now as nat)));
    }

    /// Whether the app wrote `p` within the window before `now` (and
    /// forgets the marks that are out of it).
    pub fn is_self_write(&mut self, p: &str, now: u64) -> (r: bool)
        ensures
            final(self)@ == live(old(self)@, now as nat),
            r == marked(live(old(self)@, now as nat), normalize_spec(p@)),
    {
        self.forget_old(now);
        let target = chars_of(normalize(p).as_str());
        let mut i: usize = 0;
        while i < self.marks.len()
            invariant
                0 <= i <= self.marks@.len(),
                target@ == normalize_spec(p@),
                self@ == live(old(self)@, now as nat),
                forall|k: int| 0 <= k < i ==> (#[trigger] self@[k]).0 != target@,
            decreases self.marks.len() - i,
        {
            assert(self@[i as int] == (self.marks@[i as int].0@, self.marks@[i as int].1 as nat));
            if chars_eq(&chars_of(self.marks[i].0.as_str()), &target) {
                return true;
            }
            i += 1;
        }
        false
    }
}

pub proof fn lemma_live_keeps(marks: Seq<(Seq<char>, nat)>, now: nat, i: int)
    requires
        0 <= i < marks.len(),
        (if now >= marks[i].1 { now - marks[i].1 } else { 0 }) < SELF_WRITE_WINDOW_MS,
    ensures
        live(marks, now).contains(marks[i]),
    decreases marks.len(),
{
    if i < marks.len() - 1 {
        lemma_live_keeps(marks.drop_last(), now, i);
        let r = live(marks.drop_last(), now);
        let j = choose|j: int| 0 <= j < r.len() && r[j] == marks[i];
        if live(marks, now).len() > r.len() {
            assert(live(marks, now)[j] == marks[i]);
        }
    } else {
        let r = live(marks.drop_last(), now);
        assert(live(marks, now)[r.len() as int] == marks[i]);
    }
}

pub proof fn lemma_live_only(marks: Seq<(Seq<char>, nat)>, now: nat, e: (Seq<char>, nat))
    requires
        live(marks, now).contains(e),
    ensures
        marks.contains(e),
        (if now >= e.1 { now - e.1 } else { 0 }) < SELF_WRITE_WINDOW_MS,
    decreases marks.len(),
{
    if marks.len() > 0 {
        let r = live(marks.drop_last(), now);
        if r.contains(e) {
            lemma_live_only(marks.drop_last(), now, e);
            let j = choose|j: int| 0 <= j < marks.drop_last().len() && marks.drop_last()[j] == e;
            assert(marks[j] == e);
        } else {
            let l = live(marks, now);
            let j = choose|j: int| 0 <= j < l.len() && l[j] == e;
            assert(j == r.len());
            assert(marks[marks.len() - 1] == e);
        }
    }
}

/// A file the app wrote is taken for its own write for the whole window
/// after: marked at `t`, asked about at `now` no later than `t` plus the
/// window, it is a self-write.
pub proof fn law_mark_is_seen_within_window(marks: Seq<(Seq<char>, nat)>, p: Seq<char>, t: nat, now: nat)
    requires
        t <= now < t + SELF_WRITE_WINDOW_MS,
    ensures
        marked(live(live(marks, t).push((normalize_spec(p), t)), now), normalize_spec(p)),
{
    let m = live(marks, t).push((normalize_spec(p), t));
    lemma_live_keeps(m, now, m.len() - 1);
    let l = live(m, now);
    let j = choose|j: int| 0 <= j < l.len() && l[j] == m[m.len() - 1];
    assert(l[j].0 == normalize_spec(p));
}

/// A write is forgotten once the window has passed: when every mark for
/// `p` is older than the window at `now`, `p` is not a self-write.
pub proof fn law_old_marks_are_forgotten(marks: Seq<(Seq<char>, nat)>, p: Seq<char>, now: nat)
    requires
        forall|i: int| 0 <= i < marks.len() && (#[trigger] marks[i]).0 == p ==> marks[i].1 + SELF_WRITE_WINDOW_MS <= now,
    ensures
        !marked(live(marks, now), p),
{
    if marked(live(marks, now), p) {
        let l = live(marks, now);
        let j = choose|j: int| 0 <= j < l.len() && (#[trigger] l[j]).0 == p;
        assert(l.contains(l[j]));
        lemma_live_only(marks, now, l[j]);
        let i = choose|i: int| 0 <= i < marks.len() && marks[i] == l[j];
        assert(marks[i].0 == p);
    }
}

/// The marks the registry holds after the app wrote each `(path, time)` of
/// `writes` in turn, starting from none.
pub open spec fn marks_after(writes: Seq<(Seq<char>, nat)>) -> Seq<(Seq<char>, nat)>
    decreases writes.len(),
{
    if writes.len() == 0 {
        seq![]
    } else {
        live(marks_after(writes.drop_last()), writes.last().1).push(
            (normalize_spec(writes.last().0), writes.last().1),
        )
    }
}

/// Every write of `writes`, its path as the registry compares it.
pub open spec fn normalized(writes: Seq<(Seq<char>, nat)>) -> Seq<(Seq<char>, nat)> {
    writes.map_values(|w: (Seq<char>, nat)| (normalize_spec(w.0), w.1))
}

proof fn lemma_live_push(m: Seq<(Seq<char>, nat)>, x: (Seq<char>, nat), now: nat)
    ensures
        live(m.push(x), now) == (if (if now >= x.1 { now - x.1 } else { 0 }) < SELF_WRITE_WINDOW_MS {
            live(m, now).push(x)
        } else {
            live(m, now)
        }),
{
    assert(m.push(x).drop_last() =~= m);
}

/// Forgetting at an earlier time `t` loses nothing that `now` keeps.
proof fn lemma_live_twice(m: Seq<(Seq<char>, nat)>, t: nat, now: nat)
    requires
        t <= now,
    ensures
        live(live(m, t), now) == live(m, now),
    decreases m.len(),
{
    if m.len() > 0 {
        let d = m.drop_last();
        let x = m.last();
        lemma_live_twice(d, t, now);
        let age_t: int = if t >= x.1 { t - x.1 } else { 0 };
        if age_t < SELF_WRITE_WINDOW_MS {
            lemma_live_push(live(d, t), x, now);
            assert(live(m, t) == live(d, t).push(x));
        } else {
            assert(live(m, t) == live(d, t));
        }
    }
}

proof fn lemma_marks_after(writes: Seq<(Seq<char>, nat)>, now: nat)
    requires
        forall|i: int| 0 <= i < writes.len() ==> (#[trigger] writes[i]).1 <= now,
    ensures
        live(marks_after(writes), now) == live(normalized(writes), now),
    decreases writes.len(),
{
    if writes.len() > 0 {
        let d = writes.drop_last();
        let w = writes.last();
        assert forall|i: int| 0 <= i < d.len() implies (#[trigger] d[i]).1 <= now by {
            assert(d[i] == writes[i]);
        }
        lemma_marks_after(d, now);
        assert(w == writes[writes.len() - 1]);
        let x = (normalize_spec(w.0), w.1);
        lemma_live_push(live(marks_after(d), w.1), x, now);
        lemma_live_twice(marks_after(d), w.1, now);
        assert(normalized(writes) =~= normalized(d).push(x));
        lemma_live_push(normalized(d), x, now);
    }
}

/// Over any history of the app's own writes, none later than `now`, a path
/// is a self-write at `now` exactly when one of those writes was to the
/// same path (compared with `\` read as `/` and in lower case) less than
/// the window before `now`.
pub proof fn law_self_writes_over_a_history(writes: Seq<(Seq<char>, nat)>, q: Seq<char>, now: nat)
    requires
        forall|i: int| 0 <= i < writes.len() ==> (#[trigger] writes[i]).1 <= now,
    ensures
        marked(live(marks_after(writes), now), normalize_spec(q)) <==> exists|i: int|
            0 <= i < writes.len() && normalize_spec((#[trigger] writes[i]).0) == normalize_spec(q) && now
                < writes[i].1 + SELF_WRITE_WINDOW_MS,
{
    lemma_marks_after(writes, now);
    let n = normalized(writes);
    let l = live(n, now);
    if marked(l, normalize_spec(q)) {
        let j = choose|j: int| 0 <= j < l.len() && (#[trigger] l[j]).0 == normalize_spec(q);
        assert(l.contains(l[j]));
        lemma_live_only(n, now, l[j]);
        let i = choose|i: int| 0 <= i < n.len() && n[i] == l[j];
        assert(n[i] == (normalize_spec(writes[i].0), writes[i].1));
        assert(writes[i].1 <= now);
    }
    if exists|i: int|
        0 <= i < writes.len() && normalize_spec((#[trigger] writes[i]).0) == normalize_spec(q) && now
            < writes[i].1 + SELF_WRITE_WINDOW_MS {
        let i = choose|i: int|
            0 <= i < writes.len() && normalize_spec((#[trigger] writes[i]).0) == normalize_spec(q) && now
                < writes[i].1 + SELF_WRITE_WINDOW_MS;
        assert(n[i] == (normalize_spec(writes[i].0), writes[i].1));
        assert(writes[i].1 <= now);
        lemma_live_keeps(n, now, i);
        let j = choose|j: int| 0 <= j < l.len() && l[j] == n[i];
        assert(l[j].0 == normalize_spec(q));
    }
}

// ───────────────────────── paths relative to the vault ─────────────────────────

/// `abs` relative to `vault`, `/`-separated: the parts after the vault's
/// when they begin `abs` (and both or neither start at the root); `abs`
/// itself, `\` read as `/`, otherwise.
pub open spec fn rel_path_spec(vault: Seq<char>, abs: Seq<char>) -> Seq<char> {
    let vp = path_parts(vault);
    let ap = path_parts(abs);
    let rooted_v = vault.len() > 0 && vault[0] == '/';
    let rooted_a = abs.len() > 0 && abs[0] == '/';
    if rooted_v == rooted_a && vp.len() <= ap.len() && ap.take(vp.len() as int) == vp {
        join(ap.skip(vp.len() as int), "/"@)
    } else {
        replace_char(abs, '\\', '/')
    }
}

fn parts_exec(p: &[char]) -> (r: Vec<Vec<char>>)
    ensures
        keys_view(r@) == path_parts(p@),
{
    let q = crate::text::replace_char_exec(p, '\\', '/');
    let split = crate::text::split_char_exec(&q, '/');
    let ghost sp = crate::text::split_char(crate::index::slashed(p@), '/');
    let mut parts: Vec<Vec<char>> = Vec::new();
    let dot = chars_of(".");
    let mut i: usize = 0;
    assert(sp.take(0) =~= Seq::<Seq<char>>::empty());
    while i < split.len()
        invariant
            0 <= i <= split@.len(),
            split@.len() == sp.len(),
            forall|k: int| 0 <= k < split@.len() ==> #[trigger] split@[k]@ == sp[k],
            dot@ == "."@,
            keys_view(parts@) == crate::index::named_parts(sp.take(i as int)),
        decreases split.len() - i,
    {
        assert(sp.take(i + 1).drop_last() =~= sp.take(i as int));
        assert(sp.take(i + 1).last() == split@[i as int]@);
        if split[i].len() > 0 && !chars_eq(&split[i], &dot) {
            let ghost before = keys_view(parts@);
            let c = slice_chars(&split[i], 0, split[i].len());
            assert(c@ =~= split@[i as int]@);
            parts.push(c);
            assert(keys_view(parts@) =~= before.push(split@[i as int]@));
        }
        i += 1;
    }
    assert(sp.take(sp.len() as int) =~= sp);
    parts
}

/// `abs` relative to the vault at `vault`.
pub fn rel_path(vault: &str, abs: &str) -> (r: String)
    ensures
        r@ == rel_path_spec(vault@, abs@),
{
    let vc = chars_of(vault);
    let ac = chars_of(abs);
    let vp = parts_exec(&vc);
    let ap = parts_exec(&ac);
    let rooted_v = vc.len() > 0 && vc[0] == '/';
    let rooted_a = ac.len() > 0 && ac[0] == '/';
    if rooted_v == rooted_a && vp.len() <= ap.len() {
        let mut i: usize = 0;
        while i < vp.len()
            invariant
                0 <= i <= vp@.len(),
                vp@.len() <= ap@.len(),
                vc@ == vault@,
                ac@ == abs@,
                keys_view(vp@) == path_parts(vault@),
                keys_view(ap@) == path_parts(abs@),
                rooted_v == (vault@.len() > 0 && vault@[0] == '/'),
                rooted_a == (abs@.len() > 0 && abs@[0] == '/'),
                rooted_v == rooted_a,
                forall|k: int| 0 <= k < i ==> (#[trigger] keys_view(ap@)[k]) == keys_view(vp@)[k],
            decreases vp.len() - i,
        {
            if !chars_eq(&vp[i], &ap[i]) {
                assert(keys_view(ap@).take(vp@.len() as int)[i as int] != keys_view(vp@)[i as int]);
                assert(keys_view(ap@).take(vp@.len() as int) != keys_view(vp@));
                return string_of(&replace_char_exec(&ac, '\\', '/'));
            }
            i += 1;
        }
        assert(keys_view(ap@).take(vp@.len() as int) =~= keys_view(vp@));
        let mut rest: Vec<Vec<char>> = Vec::new();
        let mut k = vp.len();
        while k < ap.len()
            invariant
                vp@.len() <= k <= ap@.len(),
                keys_view(rest@) == keys_view(ap@).subrange(vp@.len() as int, k as int),
            decreases ap.len() - k,
        {
            let ghost before = keys_view(rest@);
            let c = slice_chars(&ap[k], 0, ap[k].len());
            assert(c@ =~= ap@[k as int]@);
            rest.push(c);
            assert(keys_view(rest@) =~= before.push(ap@[k as int]@));
            assert(keys_view(ap@).subrange(vp@.len() as int, k + 1) =~= keys_view(ap@).subrange(vp@.len() as int, k as int).push(ap@[k as int]@));
            k += 1;
        }
        assert(keys_view(ap@).subrange(vp@.len() as int, ap@.len() as int) =~= keys_view(ap@).skip(vp@.len() as int));
        string_of(&join_exec(&rest, &chars_of("/")))
    } else {
        string_of(&replace_char_exec(&ac, '\\', '/'))
    }
}

// ───────────────────────── changes seen on disk ─────────────────────────

pub proof fn lemma_live_idempotent(marks: Seq<(Seq<char>, nat)>, now: nat)
    ensures
        live(live(marks, now), now) == live(marks, now),
    decreases marks.len(),
{
    if marks.len() > 0 {
        lemma_live_idempotent(marks.drop_last(), now);
        let r = live(marks.drop_last(), now);
        let l = live(marks, now);
        if l.len() > r.len() {
            assert(l.drop_last() =~= r);
        } else {
            assert(l =~= r);
        }
    }
}

/// The changed paths worth a look: those not never-looked-at.
pub open spec fn watched(paths: Seq<Seq<char>>) -> Seq<Seq<char>>
    decreases paths.len(),
{
    if paths.len() == 0 {
        seq![]
    } else if crate::vault::is_ignored_spec(paths.last()) {
        watched(paths.drop_last())
    } else {
        watched(paths.drop_last()).push(paths.last())
    }
}

/// The changed paths worth a look.
pub fn watched_paths(paths: &Vec<String>) -> (r: Vec<String>)
    ensures
        crate::text::strs(r@) == watched(crate::text::strs(paths@)),
{
    let ghost pv = crate::text::strs(paths@);
    let mut out: Vec<String> = Vec::new();
    let mut i: usize = 0;
    assert(pv.take(0) =~= Seq::<Seq<char>>::empty());
    while i < paths.len()
        invariant
            0 <= i <= paths@.len(),
            pv == crate::text::strs(paths@),
            crate::text::strs(out@) == watched(pv.take(i as int)),
        decreases paths.len() - i,
    {
        assert(pv.take(i + 1).drop_last() =~= pv.take(i as int));
        assert(pv.take(i + 1).last() == paths@[i as int]@);
        if !crate::vault::is_ignored(paths[i].as_str()) {
            let ghost before = crate::text::strs(out@);
            out.push(paths[i].clone());
            assert(crate::text::strs(out@) =~= before.push(paths@[i as int]@));
        }
        i += 1;
    }
    assert(pv.take(pv.len() as int) =~= pv);
    out
}

/// What a batch of changed paths asks for, with `marks` the app's own
/// recent writes at `now`: the Markdown files to read into the index
/// again, and the changed paths relative to the vault, each once, for the
/// view; the app's own writes are passed over.
pub open spec fn batch_spec(
    marks: Seq<(Seq<char>, nat)>,
    vault: Seq<char>,
    batch: Seq<Seq<char>>,
) -> (Seq<Seq<char>>, Seq<Seq<char>>)
    decreases batch.len(),
{
    if batch.len() == 0 {
        (seq![], seq![])
    } else {
        let (re, touched) = batch_spec(marks, vault, batch.drop_last());
        let p = batch.last();
        if marked(marks, normalize_spec(p)) {
            (re, touched)
        } else {
            let r = rel_path_spec(vault, p);
            (
                if crate::vault::is_markdown_spec(p) { re.push(p) } else { re },
                if touched.contains(r) { touched } else { touched.push(r) },
            )
        }
    }
}

/// What a batch of changed paths asks for, as of `now`.
pub fn watch_batch(writes: &mut SelfWrites, vault: &str, batch: &Vec<String>, now: u64) -> (r: (Vec<String>, Vec<String>))
    ensures
        batch@.len() > 0 ==> final(writes)@ == live(old(writes)@, now as nat),
        batch@.len() == 0 ==> final(writes)@ == old(writes)@,
        (crate::text::strs(r.0@), crate::text::strs(r.1@)) == batch_spec(
            live(old(writes)@, now as nat),
            vault@,
            crate::text::strs(batch@),
        ),
{
    let ghost bv = crate::text::strs(batch@);
    let ghost lv = live(old(writes)@, now as nat);
    proof {
        lemma_live_idempotent(old(writes)@, now as nat);
    }
    let mut re: Vec<String> = Vec::new();
    let mut touched: Vec<String> = Vec::new();
    let mut i: usize = 0;
    assert(bv.take(0) =~= Seq::<Seq<char>>::empty());
    while i < batch.len()
        invariant
            0 <= i <= batch@.len(),
            bv == crate::text::strs(batch@),
            lv == live(old(writes)@, now as nat),
            live(lv, now as nat) == lv,
            i > 0 ==> writes@ == lv,
            i == 0 ==> writes@ == old(writes)@,
            (crate::text::strs(re@), crate::text::strs(touched@)) == batch_spec(lv, vault@, bv.take(i as int)),
        decreases batch.len() - i,
    {
        assert(bv.take(i + 1).drop_last() =~= bv.take(i as int));
        assert(bv.take(i + 1).last() == batch@[i as int]@);
        let p = batch[i].as_str();
        let mine = writes.is_self_write(p, now);
        if !mine {
            let ghost rb = crate::text::strs(re@);
            let ghost tb = crate::text::strs(touched@);
            if crate::vault::is_markdown(p) {
                re.push(p.to_owned());
                assert(crate::text::strs(re@) =~= rb.push(p@));
            }
            let r = rel_path(vault, p);
            let rc = chars_of(r.as_str());
            let mut j: usize = 0;
            let mut seen = false;
            while j < touched.len()
                invariant
                    0 <= j <= touched@.len(),
                    rc@ == r@,
                    seen <==> exists|q: int| 0 <= q < j && touched@[q]@ == r@,
                decreases touched.len() - j,
            {
                if chars_eq(&chars_of(touched[j].as_str()), &rc) {
                    seen = true;
                }
                j += 1;
            }
            assert(seen <==> tb.contains(r@)) by {
                if seen {
                    let q = choose|q: int| 0 <= q < j && touched@[q]@ == r@;
                    assert(tb[q] == r@);
                }
                if tb.contains(r@) {
                    let q = choose|q: int| 0 <= q < tb.len() && tb[q] == r@;
                    assert(touched@[q]@ == r@);
                }
            }
            if !seen {
                touched.push(r);
                assert(crate::text::strs(touched@) =~= tb.push(rc@));
            }
        }
        i += 1;
    }
    assert(bv.take(bv.len() as int) =~= bv);
    (re, touched)
}

// ───────────────────────── what the app reports about itself ─────────────────────────

/// The app's version, platform and where its files are.
#[derive(Clone, Debug)]
pub struct AppInfo {
    pub version: String,
    pub platform: String,
    pub config_path: String,
    pub vault: String,
}

} // verus!
