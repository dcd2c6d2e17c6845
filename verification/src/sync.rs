//! Two-way synchronisation of the vault with a repository: the three-way
//! decision (`plan`), what guards it before anything is touched, and the
//! report that describes what happened.
//!
//! Three listings meet here, each a map from a vault-relative path to the
//! git blob hash of its content: what is on disk now (`local`), what the
//! remote branch holds now (`remote`), and what the remote held when the two
//! last agreed (`base`). Only with all three can one tell who made a change.

use vstd::prelude::*;
use crate::strmap::{entry, StrMap};
use crate::text::{insert_sorted, keys_view, concat, dec, fmt_usize, join, join_exec, push_all, string_of, replace_char, replace_char_exec, chars_eq, chars_lt, chars_of, lemma_seq_lt_irreflexive, lemma_seq_lt_total, lemma_seq_lt_transitive, seq_lt, slice_chars, strictly_sorted};

verus! {

/// Where one file goes in a synchronisation. A path with nothing to do is
/// absent from the plan.
#[derive(Clone, Copy, Debug, PartialEq, Eq, Structural)]
pub enum Action {
    /// remote → local
    Download,
    /// local → remote; `resurrect`: the remote deleted it but it changed here
    Upload { resurrect: bool },
    /// deleted on the remote, untouched here → delete here too
    DeleteLocal,
    /// deleted here, untouched on the remote → delete there too
    DeleteRemote,
    /// changed on both sides → keep the local file, save the remote one beside it
    Conflict,
}

/// The three-way rule for one path, given its hash locally, remotely and
/// in the base (`None`: the path is absent there).
///
/// ```text
///  local vs base │ remote vs base │ outcome
///  unchanged     │ unchanged      │ nothing
///  unchanged     │ changed        │ download
///  changed       │ unchanged      │ upload
///  changed       │ changed        │ conflict, both kept
/// ```
/// A side may follow a deletion only when it is itself unchanged; with no
/// base nothing is ever deleted.
pub open spec fn decide(l: Option<Seq<char>>, r: Option<Seq<char>>, b: Option<Seq<char>>) -> Option<
    Action,
> {
    match (l, r) {
        (Some(l), Some(r)) => {
            if l == r {
                None
            } else {
                match b {
                    Some(b) => {
                        if b == l {
                            Some(Action::Download)
                        } else if b == r {
                            Some(Action::Upload { resurrect: false })
                        } else {
                            Some(Action::Conflict)
                        }
                    },
                    None => Some(Action::Conflict),
                }
            }
        },
        (Some(l), None) => match b {
            Some(b) => {
                if b == l {
                    Some(Action::DeleteLocal)
                } else {
                    Some(Action::Upload { resurrect: true })
                }
            },
            None => Some(Action::Upload { resurrect: false }),
        },
        (None, Some(r)) => match b {
            Some(b) => {
                if b == r {
                    Some(Action::DeleteRemote)
                } else {
                    Some(Action::Download)
                }
            },
            None => Some(Action::Download),
        },
        (None, None) => None,
    }
}


/// A listing: vault-relative path → blob hash.
pub type Manifest = StrMap;

/// The plan: for each path that needs something done, what, in path order.
#[derive(Debug)]
pub struct SyncPlan {
    entries: Vec<(Vec<char>, Action)>,
}

pub open spec fn plan_entry_view(e: (Vec<char>, Action)) -> (Seq<char>, Action) {
    (e.0@, e.1)
}

impl View for SyncPlan {
    type V = Seq<(Seq<char>, Action)>;

    closed spec fn view(&self) -> Seq<(Seq<char>, Action)> {
        self.entries@.map_values(|e: (Vec<char>, Action)| plan_entry_view(e))
    }
}

/// The paths of a plan, strictly increasing.
pub open spec fn plan_sorted(p: Seq<(Seq<char>, Action)>) -> bool {
    forall|i: int, j: int| 0 <= i < j < p.len() ==> seq_lt(#[trigger] p[i].0, #[trigger] p[j].0)
}

/// The action that `p` holds for `k`, if any.
pub open spec fn key_at(p: Seq<(Seq<char>, Action)>, k: Seq<char>, i: int) -> bool {
    0 <= i < p.len() && p[i].0 == k
}

/// The action that `p` holds for `k`, if any.
pub open spec fn plan_get(p: Seq<(Seq<char>, Action)>, k: Seq<char>) -> Option<Action> {
    if exists|i: int| key_at(p, k, i) {
        Some(p[choose|i: int| key_at(p, k, i)].1)
    } else {
        None
    }
}

/// What `plan` is for three listings: one entry per path that `decide`
/// gives an action for, with that action, in path order.
pub open spec fn is_plan_of(
    p: Seq<(Seq<char>, Action)>,
    local: Map<Seq<char>, Seq<char>>,
    remote: Map<Seq<char>, Seq<char>>,
    base: Map<Seq<char>, Seq<char>>,
) -> bool {
    &&& plan_sorted(p)
    &&& forall|i: int|
        0 <= i < p.len() ==> decide(
            entry(local, (#[trigger] p[i]).0),
            entry(remote, p[i].0),
            entry(base, p[i].0),
        ) == Some(p[i].1)
    &&& forall|k: Seq<char>|
        #![trigger decide(entry(local, k), entry(remote, k), entry(base, k))]
        decide(entry(local, k), entry(remote, k), entry(base, k)) is Some ==> exists|i: int|
            0 <= i < p.len() && (#[trigger] p[i]).0 == k
}

pub proof fn lemma_plan_get(p: Seq<(Seq<char>, Action)>, k: Seq<char>, i: int)
    requires
        plan_sorted(p),
        0 <= i < p.len(),
        p[i].0 == k,
    ensures
        plan_get(p, k) == Some(p[i].1),
{
    assert(key_at(p, k, i));
    let j = choose|j: int| key_at(p, k, j);
    assert(plan_get(p, k) == Some(p[j].1));
    if j < i {
        assert(seq_lt(p[j].0, p[i].0));
        lemma_seq_lt_irreflexive(k);
    } else if i < j {
        assert(seq_lt(p[i].0, p[j].0));
        lemma_seq_lt_irreflexive(k);
    }
}

/// Every path that any of the three listings holds, once each, in order.
fn union_keys(local: &Manifest, remote: &Manifest, base: &Manifest) -> (keys: Vec<Vec<char>>)
    ensures
        strictly_sorted(keys_view(keys@)),
        forall|x: Seq<char>|
            keys_view(keys@).contains(x) <==> (local@.dom().contains(x)
                || remote@.dom().contains(x) || base@.dom().contains(x)),
{
    let mut keys: Vec<Vec<char>> = Vec::new();
    let lists = [local.keys_seq(), remote.keys_seq(), base.keys_seq()];
    let mut n: usize = 0;
    while n < 3
        invariant
            0 <= n <= 3,
            lists@.len() == 3,
            forall|x: Seq<char>|
                local@.dom().contains(x) <==> exists|i: int|
                    0 <= i < lists@[0]@.len() && (#[trigger] lists@[0]@[i])@ == x,
            forall|x: Seq<char>|
                remote@.dom().contains(x) <==> exists|i: int|
                    0 <= i < lists@[1]@.len() && (#[trigger] lists@[1]@[i])@ == x,
            forall|x: Seq<char>|
                base@.dom().contains(x) <==> exists|i: int|
                    0 <= i < lists@[2]@.len() && (#[trigger] lists@[2]@[i])@ == x,
            strictly_sorted(keys_view(keys@)),
            forall|x: Seq<char>|
                keys_view(keys@).contains(x) <==> exists|m: int, i: int|
                    0 <= m < n && 0 <= i < lists@[m]@.len() && (#[trigger] lists@[m]@[i])@ == x,
        decreases 3 - n,
    {
        let list = &lists[n];
        let mut i: usize = 0;
        while i < list.len()
            invariant
                0 <= n < 3,
                lists@.len() == 3,
                list == lists@[n as int],
                0 <= i <= list@.len(),
                strictly_sorted(keys_view(keys@)),
                forall|x: Seq<char>|
                    keys_view(keys@).contains(x) <==> ((exists|m: int, j: int|
                        0 <= m < n && 0 <= j < lists@[m]@.len() && (#[trigger] lists@[m]@[j])@
                            == x) || exists|j: int| 0 <= j < i && (#[trigger] list@[j])@ == x),
            decreases list.len() - i,
        {
            insert_sorted(&mut keys, &list[i]);
            proof {
                assert forall|x: Seq<char>|
                    keys_view(keys@).contains(x) <==> ((exists|m: int, j: int|
                        0 <= m < n && 0 <= j < lists@[m]@.len() && (#[trigger] lists@[m]@[j])@
                            == x) || exists|j: int|
                        0 <= j < i + 1 && (#[trigger] list@[j])@ == x) by {
                    if exists|j: int| 0 <= j < i + 1 && (#[trigger] list@[j])@ == x {
                        let j = choose|j: int| 0 <= j < i + 1 && (#[trigger] list@[j])@ == x;
                        if j < i {
                        }
                    }
                }
            }
            i += 1;
        }
        proof {
            assert forall|x: Seq<char>|
                keys_view(keys@).contains(x) <==> exists|m: int, j: int|
                    0 <= m < n + 1 && 0 <= j < lists@[m]@.len() && (#[trigger] lists@[m]@[j])@
                        == x by {
                if exists|m: int, j: int|
                    0 <= m < n + 1 && 0 <= j < lists@[m]@.len() && (#[trigger] lists@[m]@[j])@
                        == x {
                    let (m, j) = choose|m: int, j: int|
                        0 <= m < n + 1 && 0 <= j < lists@[m]@.len() && (#[trigger] lists@[m]@[j])@
                            == x;
                    if m == n {
                        assert(list@[j]@ == x);
                    }
                }
                if exists|j: int| 0 <= j < i && (#[trigger] list@[j])@ == x {
                    let j = choose|j: int| 0 <= j < i && (#[trigger] list@[j])@ == x;
                    assert(lists@[n as int]@[j]@ == x);
                }
            }
        }
        n += 1;
    }
    proof {
        assert forall|x: Seq<char>|
            keys_view(keys@).contains(x) <==> (local@.dom().contains(x)
                || remote@.dom().contains(x) || base@.dom().contains(x)) by {
            if exists|m: int, j: int|
                0 <= m < 3 && 0 <= j < lists@[m]@.len() && (#[trigger] lists@[m]@[j])@ == x {
                let (m, j) = choose|m: int, j: int|
                    0 <= m < 3 && 0 <= j < lists@[m]@.len() && (#[trigger] lists@[m]@[j])@ == x;
                if m == 0 {
                } else if m == 1 {
                } else {
                }
            }
            if local@.dom().contains(x) {
                let j = choose|j: int| 0 <= j < lists@[0]@.len() && (#[trigger] lists@[0]@[j])@ == x;
                assert(lists@[0]@[j]@ == x);
            }
            if remote@.dom().contains(x) {
                let j = choose|j: int| 0 <= j < lists@[1]@.len() && (#[trigger] lists@[1]@[j])@ == x;
                assert(lists@[1]@[j]@ == x);
            }
            if base@.dom().contains(x) {
                let j = choose|j: int| 0 <= j < lists@[2]@.len() && (#[trigger] lists@[2]@[j])@ == x;
                assert(lists@[2]@[j]@ == x);
            }
        }
    }
    keys
}

/// `decide` on the hashes that three listings hold for one path.
fn decide_exec(l: Option<&Vec<char>>, r: Option<&Vec<char>>, b: Option<&Vec<char>>) -> (a: Option<
    Action,
>)
    ensures
        a == decide(
            match l {
                Some(x) => Some(x@),
                None => None,
            },
            match r {
                Some(x) => Some(x@),
                None => None,
            },
            match b {
                Some(x) => Some(x@),
                None => None,
            },
        ),
{
    match (l, r) {
        (Some(lv), Some(rv)) => {
            if chars_eq(lv, rv) {
                None
            } else {
                match b {
                    Some(bv) => {
                        if chars_eq(bv, lv) {
                            Some(Action::Download)
                        } else if chars_eq(bv, rv) {
                            Some(Action::Upload { resurrect: false })
                        } else {
                            Some(Action::Conflict)
                        }
                    },
                    None => Some(Action::Conflict),
                }
            }
        },
        (Some(lv), None) => match b {
            Some(bv) => {
                if chars_eq(bv, lv) {
                    Some(Action::DeleteLocal)
                } else {
                    Some(Action::Upload { resurrect: true })
                }
            },
            None => Some(Action::Upload { resurrect: false }),
        },
        (None, Some(rv)) => match b {
            Some(bv) => {
                if chars_eq(bv, rv) {
                    Some(Action::DeleteRemote)
                } else {
                    Some(Action::Download)
                }
            },
            None => Some(Action::Download),
        },
        (None, None) => None,
    }
}

/// The three-way decision for every path that any listing holds.
pub fn plan(local: &Manifest, remote: &Manifest, base: &Manifest) -> (p: SyncPlan)
    ensures
        is_plan_of(p@, local@, remote@, base@),
{
    let keys = union_keys(local, remote, base);
    let ghost ks = keys_view(keys@);
    let mut out: Vec<(Vec<char>, Action)> = Vec::new();
    let ghost idx: Seq<int> = seq![];
    let mut i: usize = 0;
    while i < keys.len()
        invariant
            0 <= i <= keys@.len(),
            ks == keys_view(keys@),
            strictly_sorted(ks),
            forall|x: Seq<char>|
                ks.contains(x) <==> (local@.dom().contains(x) || remote@.dom().contains(x)
                    || base@.dom().contains(x)),
            idx.len() == out@.len(),
            forall|t: int| 0 <= t < idx.len() ==> 0 <= #[trigger] idx[t] < i,
            forall|t: int, u: int| 0 <= t < u < idx.len() ==> #[trigger] idx[t] < #[trigger] idx[u],
            forall|t: int| 0 <= t < out@.len() ==> (#[trigger] out@[t]).0@ == ks[idx[t]],
            forall|t: int|
                0 <= t < out@.len() ==> decide(
                    entry(local@, (#[trigger] out@[t]).0@),
                    entry(remote@, out@[t].0@),
                    entry(base@, out@[t].0@),
                ) == Some(out@[t].1),
            forall|j: int|
                0 <= j < i && (decide(entry(local@, ks[j]), entry(remote@, ks[j]), entry(base@, ks[j])) is Some) ==> exists|t: int|
                    0 <= t < out@.len() && (#[trigger] out@[t]).0@ == ks[j],
        decreases keys.len() - i,
    {
        let k = &keys[i];
        let lf = local.find(k);
        let rf = remote.find(k);
        let bf = base.find(k);
        let a = decide_exec(lf, rf, bf);
        assert(a == decide(entry(local@, ks[i as int]), entry(remote@, ks[i as int]), entry(base@, ks[i as int]))) by {
            assert(k@ == ks[i as int]);
            assert((match lf { Some(x) => Some(x@), None => None::<Seq<char>> }) == entry(local@, k@));
            assert((match rf { Some(x) => Some(x@), None => None::<Seq<char>> }) == entry(remote@, k@));
            assert((match bf { Some(x) => Some(x@), None => None::<Seq<char>> }) == entry(base@, k@));
        }
        let ghost old_out = out@;
        if let Some(act) = a {
            let kk = slice_chars(k, 0, k.len());
            assert(kk@ =~= k@);
            out.push((kk, act));
            proof {
                idx = idx.push(i as int);
            }
        }
        proof {
            assert forall|j: int|
                0 <= j < i + 1 && (decide(entry(local@, ks[j]), entry(remote@, ks[j]), entry(base@, ks[j])) is Some) implies exists|t: int|
                    0 <= t < out@.len() && (#[trigger] out@[t]).0@ == ks[j] by {
                if j == i {
                    assert(out@[out@.len() - 1].0@ == ks[j]);
                } else {
                    let t = choose|t: int| 0 <= t < old_out.len() && (#[trigger] old_out[t]).0@ == ks[j];
                    assert(out@[t] == old_out[t]);
                }
            }
        }
        i += 1;
    }
    let p = SyncPlan { entries: out };
    proof {
        let pv = p@;
        assert forall|a: int, b: int| 0 <= a < b < pv.len() implies seq_lt(
            #[trigger] pv[a].0,
            #[trigger] pv[b].0,
        ) by {
            assert(idx[a] < idx[b]);
            assert(pv[a].0 == ks[idx[a]]);
            assert(pv[b].0 == ks[idx[b]]);
        }
        assert forall|x: Seq<char>|
            #![trigger decide(entry(local@, x), entry(remote@, x), entry(base@, x))]
            decide(entry(local@, x), entry(remote@, x), entry(base@, x)) is Some implies exists|t: int|
                0 <= t < pv.len() && (#[trigger] pv[t]).0 == x by {
            assert(local@.dom().contains(x) || remote@.dom().contains(x) || base@.dom().contains(x));
            assert(ks.contains(x));
            let j = choose|j: int| 0 <= j < ks.len() && ks[j] == x;
            let t = choose|t: int| 0 <= t < out@.len() && (#[trigger] out@[t]).0@ == ks[j];
            assert(pv[t].0 == x);
        }
        assert forall|t: int| 0 <= t < pv.len() implies decide(
            entry(local@, (#[trigger] pv[t]).0),
            entry(remote@, pv[t].0),
            entry(base@, pv[t].0),
        ) == Some(pv[t].1) by {
            assert(pv[t] == plan_entry_view(out@[t]));
        }
    }
    p
}

impl SyncPlan {
    #[verifier::type_invariant]
    spec fn sorted_paths(self) -> bool {
        plan_sorted(self@)
    }

    /// Every path with its action, in path order.
    pub fn entries(&self) -> (r: Vec<(String, Action)>)
        ensures
            r@.len() == self@.len(),
            forall|i: int| 0 <= i < r@.len() ==> (#[trigger] r@[i]).0@ == self@[i].0 && r@[i].1 == self@[i].1,
    {
        let mut r: Vec<(String, Action)> = Vec::new();
        let mut i: usize = 0;
        while i < self.entries.len()
            invariant
                0 <= i <= self.entries@.len(),
                r@.len() == i,
                forall|j: int| 0 <= j < i ==> (#[trigger] r@[j]).0@ == self@[j].0 && r@[j].1 == self@[j].1,
            decreases self.entries.len() - i,
        {
            assert(self@[i as int] == plan_entry_view(self.entries@[i as int]));
            r.push((string_of(&self.entries[i].0), self.entries[i].1));
            i += 1;
        }
        r
    }

    pub fn len(&self) -> (n: usize)
        ensures
            n == self@.len(),
    {
        self.entries.len()
    }

    pub fn is_empty(&self) -> (b: bool)
        ensures
            b == (self@.len() == 0),
    {
        self.entries.len() == 0
    }

    /// The action for `path`, if the plan has one.
    pub fn get(&self, path: &str) -> (r: Option<&Action>)
        ensures
            match r {
                Some(a) => plan_get(self@, path@) == Some(*a),
                None => plan_get(self@, path@) is None,
            },
    {
        proof {
            use_type_invariant(self);
        }
        let k = chars_of(path);
        let mut i: usize = 0;
        while i < self.entries.len()
            invariant
                0 <= i <= self.entries@.len(),
                k@ == path@,
                plan_sorted(self@),
                forall|j: int| 0 <= j < i ==> !key_at(self@, path@, j),
            decreases self.entries.len() - i,
        {
            if chars_eq(&self.entries[i].0, &k) {
                proof {
                    assert(self@[i as int] == plan_entry_view(self.entries@[i as int]));
                    lemma_plan_get(self@, path@, i as int);
                }
                return Some(&self.entries[i].1);
            }
            assert(self@[i as int] == plan_entry_view(self.entries@[i as int]));
            i += 1;
        }
        None
    }
}


// ───────────────────────── guards ─────────────────────────

/// A path as the caller names it, with backslashes turned into slashes.
pub open spec fn norm_path(p: Seq<char>) -> Seq<char> {
    replace_char(p, '\\', '/')
}

/// What becomes of an action on a path that is open in the editor: it may
/// be read but not written. A download turns into a conflict copy (another
/// file), a local deletion is dropped.
pub open spec fn guard_action(a: Action, protected: bool) -> Option<Action> {
    if protected {
        match a {
            Action::Download => Some(Action::Conflict),
            Action::DeleteLocal => None,
            _ => Some(a),
        }
    } else {
        Some(a)
    }
}

/// The plan after the guards: paths that could not be read locally leave it
/// entirely (else they would look deleted), and protected paths get
/// `guard_action`.
pub open spec fn guarded(
    p: Seq<(Seq<char>, Action)>,
    unusable: Seq<Seq<char>>,
    protect: Seq<Seq<char>>,
) -> Seq<(Seq<char>, Action)>
    decreases p.len(),
{
    if p.len() == 0 {
        seq![]
    } else {
        let rest = guarded(p.drop_last(), unusable, protect);
        let e = p.last();
        if unusable.contains(e.0) {
            rest
        } else {
            match guard_action(e.1, protect.contains(e.0)) {
                Some(b) => rest.push((e.0, b)),
                None => rest,
            }
        }
    }
}

/// The note that tells what a guard did to a protected path.
pub open spec fn guard_note(k: Seq<char>, a: Option<Action>) -> Seq<Seq<char>> {
    match a {
        Some(Action::Download) => seq![k + "（正在编辑，远端版本另存为副本）"@],
        Some(Action::DeleteLocal) => seq![k + "（正在编辑，已取消删除）"@],
        _ => seq![],
    }
}

/// One note per distinct protected path whose action the guard changed,
/// in the order the paths are first named.
pub open spec fn guard_notes(
    p: Seq<(Seq<char>, Action)>,
    unusable: Seq<Seq<char>>,
    protect: Seq<Seq<char>>,
) -> Seq<Seq<char>>
    decreases protect.len(),
{
    if protect.len() == 0 {
        seq![]
    } else {
        let k = protect.last();
        let prev = protect.drop_last();
        guard_notes(p, unusable, prev) + (if prev.contains(k) || unusable.contains(k) {
            seq![]
        } else {
            guard_note(k, plan_get(p, k))
        })
    }
}

pub open spec fn strings_view(v: Seq<String>) -> Seq<Seq<char>> {
    v.map_values(|s: String| s@)
}

pub open spec fn norm_paths(v: Seq<String>) -> Seq<Seq<char>> {
    v.map_values(|s: String| norm_path(s@))
}

fn list_contains(xs: &Vec<Vec<char>>, k: &[char]) -> (r: bool)
    ensures
        r == keys_view(xs@).contains(k@),
{
    let mut i: usize = 0;
    while i < xs.len()
        invariant
            0 <= i <= xs@.len(),
            forall|j: int| 0 <= j < i ==> xs@[j]@ != k@,
        decreases xs.len() - i,
    {
        if chars_eq(&xs[i], k) {
            assert(keys_view(xs@)[i as int] == k@);
            return true;
        }
        i += 1;
    }
    proof {
        if keys_view(xs@).contains(k@) {
            let j = choose|j: int| 0 <= j < keys_view(xs@).len() && keys_view(xs@)[j] == k@;
            assert(xs@[j]@ == k@);
        }
    }
    false
}

fn chars_list(v: &Vec<String>, normalize: bool) -> (r: Vec<Vec<char>>)
    ensures
        keys_view(r@) == (if normalize {
            norm_paths(v@)
        } else {
            strings_view(v@)
        }),
{
    let mut r: Vec<Vec<char>> = Vec::new();
    let mut i: usize = 0;
    while i < v.len()
        invariant
            0 <= i <= v@.len(),
            keys_view(r@) == (if normalize {
                norm_paths(v@.take(i as int))
            } else {
                strings_view(v@.take(i as int))
            }),
        decreases v.len() - i,
    {
        let c = chars_of(v[i].as_str());
        let c = if normalize {
            replace_char_exec(&c, '\\', '/')
        } else {
            c
        };
        r.push(c);
        proof {
            assert(v@.take(i + 1) =~= v@.take(i as int).push(v@[i as int]));
            assert(keys_view(r@) =~= keys_view(r@.drop_last()).push(r@.last()@));
            assert(norm_paths(v@.take(i + 1)) =~= norm_paths(v@.take(i as int)).push(norm_path(v@[i as int]@)));
            assert(strings_view(v@.take(i + 1)) =~= strings_view(v@.take(i as int)).push(v@[i as int]@));
        }
        i += 1;
    }
    assert(v@.take(v@.len() as int) =~= v@);
    r
}

fn guard_note_exec(k: &[char], a: Option<Action>) -> (r: Option<String>)
    ensures
        guard_note(k@, a) == (match r {
            Some(n) => seq![n@],
            None => Seq::<Seq<char>>::empty(),
        }),
{
    match a {
        Some(Action::Download) => {
            let t = chars_of("（正在编辑，远端版本另存为副本）");
            Some(string_of(&crate::text::concat(k, &t)))
        },
        Some(Action::DeleteLocal) => {
            let t = chars_of("（正在编辑，已取消删除）");
            Some(string_of(&crate::text::concat(k, &t)))
        },
        _ => None,
    }
}

impl SyncPlan {
    fn get_chars(&self, k: &[char]) -> (r: Option<Action>)
        ensures
            r == plan_get(self@, k@),
    {
        proof {
            use_type_invariant(self);
        }
        let mut i: usize = 0;
        while i < self.entries.len()
            invariant
                0 <= i <= self.entries@.len(),
                plan_sorted(self@),
                forall|j: int| 0 <= j < i ==> !key_at(self@, k@, j),
            decreases self.entries.len() - i,
        {
            assert(self@[i as int] == plan_entry_view(self.entries@[i as int]));
            if chars_eq(&self.entries[i].0, k) {
                proof {
                    lemma_plan_get(self@, k@, i as int);
                }
                return Some(self.entries[i].1);
            }
            i += 1;
        }
        None
    }

    /// Applies the guards to the plan: drops the paths in `unusable` (present
    /// on disk but unreadable), and keeps the paths in `protect` (open in
    /// the editor, unsaved) from being overwritten or deleted. Returns the
    /// guarded plan and a note for each protected path whose action changed.
    pub fn guard(&self, unusable: &Vec<String>, protect: &Vec<String>) -> (r: (SyncPlan, Vec<String>))
        ensures
            r.0@ == guarded(self@, strings_view(unusable@), norm_paths(protect@)),
            strings_view(r.1@) == guard_notes(
                self@,
                strings_view(unusable@),
                norm_paths(protect@),
            ),
    {
        proof {
            use_type_invariant(self);
        }
        let un = chars_list(unusable, false);
        let pr = chars_list(protect, true);
        let ghost u = strings_view(unusable@);
        let ghost pp = norm_paths(protect@);
        let ghost p = self@;
        let mut out: Vec<(Vec<char>, Action)> = Vec::new();
        let ghost idx: Seq<int> = seq![];
        let mut i: usize = 0;
        while i < self.entries.len()
            invariant
                0 <= i <= self.entries@.len(),
                p == self@,
                plan_sorted(p),
                keys_view(un@) == u,
                keys_view(pr@) == pp,
                out@.map_values(|e: (Vec<char>, Action)| plan_entry_view(e)) == guarded(
                    p.take(i as int),
                    u,
                    pp,
                ),
                idx.len() == out@.len(),
                forall|t: int| 0 <= t < idx.len() ==> 0 <= #[trigger] idx[t] < i,
                forall|t: int, v: int|
                    0 <= t < v < idx.len() ==> #[trigger] idx[t] < #[trigger] idx[v],
                forall|t: int| 0 <= t < out@.len() ==> (#[trigger] out@[t]).0@ == p[idx[t]].0,
            decreases self.entries.len() - i,
        {
            let e = &self.entries[i];
            assert(p[i as int] == plan_entry_view(self.entries@[i as int]));
            proof {
                assert(p.take(i + 1).drop_last() =~= p.take(i as int));
            }
            let ghost before = out@;
            if !list_contains(&un, &e.0) {
                let prot = list_contains(&pr, &e.0);
                let na = if prot {
                    match e.1 {
                        Action::Download => Some(Action::Conflict),
                        Action::DeleteLocal => None,
                        other => Some(other),
                    }
                } else {
                    Some(e.1)
                };
                if let Some(b) = na {
                    let kk = slice_chars(&e.0, 0, e.0.len());
                    assert(kk@ =~= e.0@);
                    out.push((kk, b));
                    proof {
                        idx = idx.push(i as int);
                        assert(out@.map_values(|e: (Vec<char>, Action)| plan_entry_view(e))
                            =~= before.map_values(|e: (Vec<char>, Action)| plan_entry_view(e)).push(
                            (p[i as int].0, b),
                        ));
                    }
                }
            }
            i += 1;
        }
        assert(p.take(p.len() as int) =~= p);
        let g = SyncPlan { entries: out };
        proof {
            let gv = g@;
            assert(gv =~= guarded(p, u, pp));
            assert forall|a: int, b: int| 0 <= a < b < gv.len() implies seq_lt(
                #[trigger] gv[a].0,
                #[trigger] gv[b].0,
            ) by {
                assert(gv[a] == plan_entry_view(out@[a]));
                assert(gv[b] == plan_entry_view(out@[b]));
                assert(idx[a] < idx[b]);
            }
        }
        // notes, over the distinct protected paths
        let mut notes: Vec<String> = Vec::new();
        let mut n: usize = 0;
        while n < pr.len()
            invariant
                0 <= n <= pr@.len(),
                keys_view(pr@) == pp,
                keys_view(un@) == u,
                p == self@,
                strings_view(notes@) == guard_notes(p, u, pp.take(n as int)),
            decreases pr.len() - n,
        {
            let k = &pr[n];
            let ghost prev = pp.take(n as int);
            proof {
                assert(pp.take(n + 1).drop_last() =~= prev);
                assert(pp.take(n + 1).last() == k@);
            }
            let mut seen = false;
            let mut m: usize = 0;
            while m < n
                invariant
                    0 <= m <= n < pr@.len(),
                    keys_view(pr@) == pp,
                    prev == pp.take(n as int),
                    k@ == pr@[n as int]@,
                    seen == exists|j: int| 0 <= j < m && #[trigger] pp[j] == pr@[n as int]@,
                decreases n - m,
            {
                assert(pp[m as int] == pr@[m as int]@);
                if chars_eq(&pr[m], k) {
                    seen = true;
                }
                proof {
                    if !seen {
                        assert forall|j: int| 0 <= j < m + 1 implies #[trigger] pp[j] != pr@[n as int]@ by {
                            if j < m {
                            }
                        }
                    }
                }
                m += 1;
            }
            proof {
                if seen {
                    let j = choose|j: int| 0 <= j < n && #[trigger] pp[j] == pr@[n as int]@;
                    assert(prev[j] == k@);
                }
                if prev.contains(k@) {
                    let j = choose|j: int| 0 <= j < prev.len() && prev[j] == k@;
                    assert(pp[j] == k@);
                }
            }
            let ghost old_notes = notes@;
            if !seen && !list_contains(&un, k) {
                let a = self.get_chars(k);
                match guard_note_exec(k, a) {
                    Some(t) => {
                        notes.push(t);
                        assert(strings_view(notes@) =~= strings_view(old_notes).push(t@));
                    },
                    None => {},
                }
            }
            assert(strings_view(notes@) =~= guard_notes(p, u, pp.take(n + 1)));
            n += 1;
        }
        assert(pp.take(pr@.len() as int) =~= pp);
        (g, notes)
    }
}


// ───────────────────────── what the plan asks of the remote ─────────────────────────

/// The paths of the entries whose action satisfies `f`, in plan order.
pub open spec fn paths_where(p: Seq<(Seq<char>, Action)>, f: spec_fn(Action) -> bool) -> Seq<Seq<char>>
    decreases p.len(),
{
    if p.len() == 0 {
        seq![]
    } else if f(p.last().1) {
        paths_where(p.drop_last(), f).push(p.last().0)
    } else {
        paths_where(p.drop_last(), f)
    }
}

pub open spec fn is_upload(a: Action) -> bool {
    a is Upload
}

pub open spec fn is_delete_remote(a: Action) -> bool {
    a is DeleteRemote
}

pub open spec fn is_resurrect(a: Action) -> bool {
    a == Action::Upload { resurrect: true }
}

impl SyncPlan {
    /// The paths to upload, the paths to delete on the remote (both in path
    /// order), and how many uploads bring back a file the remote deleted.
    pub fn push_lists(&self) -> (r: (Vec<String>, Vec<String>, usize))
        ensures
            strings_view(r.0@) == paths_where(self@, |a: Action| is_upload(a)),
            strings_view(r.1@) == paths_where(self@, |a: Action| is_delete_remote(a)),
            r.2 == paths_where(self@, |a: Action| is_resurrect(a)).len(),
    {
        let ghost p = self@;
        let mut ups: Vec<String> = Vec::new();
        let mut dels: Vec<String> = Vec::new();
        let mut res: usize = 0;
        let mut i: usize = 0;
        while i < self.entries.len()
            invariant
                0 <= i <= self.entries@.len(),
                p == self@,
                strings_view(ups@) == paths_where(p.take(i as int), |a: Action| is_upload(a)),
                strings_view(dels@) == paths_where(p.take(i as int), |a: Action| is_delete_remote(a)),
                res == paths_where(p.take(i as int), |a: Action| is_resurrect(a)).len(),
                res <= i,
            decreases self.entries.len() - i,
        {
            let e = &self.entries[i];
            assert(p[i as int] == plan_entry_view(self.entries@[i as int]));
            proof {
                assert(p.take(i + 1).drop_last() =~= p.take(i as int));
            }
            let ghost u0 = ups@;
            let ghost d0 = dels@;
            match e.1 {
                Action::Upload { resurrect } => {
                    ups.push(string_of(&e.0));
                    assert(strings_view(ups@) =~= strings_view(u0).push(e.0@));
                    if resurrect {
                        res += 1;
                    }
                },
                Action::DeleteRemote => {
                    dels.push(string_of(&e.0));
                    assert(strings_view(dels@) =~= strings_view(d0).push(e.0@));
                },
                _ => {},
            }
            i += 1;
        }
        assert(p.take(p.len() as int) =~= p);
        (ups, dels, res)
    }
}

impl SyncPlan {
    /// What a run sends to the remote: nothing in a pull-only run
    /// (`do_push` false) or when there is nothing to upload or delete;
    /// else the paths to upload and the paths to delete on the remote.
    pub fn push_request(&self, do_push: bool) -> (r: Option<(Vec<String>, Vec<String>)>)
        ensures
            !do_push ==> r is None,
            do_push ==> match r {
                Some((u, d)) => strings_view(u@) == paths_where(self@, |a: Action| is_upload(a))
                    && strings_view(d@) == paths_where(self@, |a: Action| is_delete_remote(a))
                    && (u@.len() > 0 || d@.len() > 0),
                None => paths_where(self@, |a: Action| is_upload(a)).len() == 0
                    && paths_where(self@, |a: Action| is_delete_remote(a)).len() == 0,
            },
    {
        if !do_push {
            return None;
        }
        let (u, d, _) = self.push_lists();
        if u.len() == 0 && d.len() == 0 {
            None
        } else {
            Some((u, d))
        }
    }
}

/// What the pull half of a synchronisation does with one planned path.
#[derive(Debug)]
pub enum PullStep {
    /// nothing here (an upload or a remote delete, or no remote file found)
    Nothing,
    /// the remote file is over the size limit: left out, with this note
    TooLarge(String),
    /// fetch the remote file and save it beside the local one
    FetchAsCopy,
    /// fetch the remote file and write it over the local one
    FetchInPlace,
    /// delete the local file
    DeleteLocal,
}

/// The pull step for `rel` planned as `act`, the remote file being
/// `remote_size` bytes (`None` where the remote listing lacks it).
pub fn pull_step(rel: &str, act: Action, remote_size: Option<u64>) -> (r: PullStep)
    ensures
        match act {
            Action::Download | Action::Conflict => match remote_size {
                None => r is Nothing,
                Some(n) => if n > crate::github::MAX_FILE {
                    r matches PullStep::TooLarge(m) && m@ == crate::github::oversize_note_spec(rel@, n, true)
                } else if act is Conflict {
                    r is FetchAsCopy
                } else {
                    r is FetchInPlace
                },
            },
            Action::DeleteLocal => r is DeleteLocal,
            _ => r is Nothing,
        },
{
    match act {
        Action::Download | Action::Conflict => match remote_size {
            None => PullStep::Nothing,
            Some(n) => if n > crate::github::MAX_FILE {
                PullStep::TooLarge(crate::github::oversize_note(rel, n, true))
            } else {
                match act {
                    Action::Conflict => PullStep::FetchAsCopy,
                    _ => PullStep::FetchInPlace,
                }
            },
        },
        Action::DeleteLocal => PullStep::DeleteLocal,
        _ => PullStep::Nothing,
    }
}

/// How many distinct paths the three listings hold together.
pub fn path_count(local: &Manifest, remote: &Manifest, base: &Manifest) -> (n: usize)
    ensures
        exists|ks: Seq<Seq<char>>|
            strictly_sorted(ks) && ks.len() == n && forall|x: Seq<char>|
                #[trigger] ks.contains(x) <==> (local@.dom().contains(x) || remote@.dom().contains(x)
                    || base@.dom().contains(x)),
{
    let keys = union_keys(local, remote, base);
    assert(keys_view(keys@).len() == keys@.len());
    keys.len()
}

// ───────────────────────── the report ─────────────────────────

/// The counted parts of the summary, for the counts that are not zero.
pub open spec fn report_parts(
    pulled: nat,
    pushed: nat,
    local_deleted: nat,
    remote_deleted: nat,
    conflicts: nat,
) -> Seq<Seq<char>> {
    labelled_if("下载 "@, pulled) + labelled_if("上传 "@, pushed) + labelled_if("删本地 "@, local_deleted)
        + labelled_if("删远端 "@, remote_deleted) + labelled_if("冲突 "@, conflicts)
}

pub open spec fn labelled_if(label: Seq<char>, n: nat) -> Seq<Seq<char>> {
    if n > 0 {
        seq![label + dec(n)]
    } else {
        seq![]
    }
}

/// The opening sentence of the summary.
pub open spec fn report_head(parts: Seq<Seq<char>>, pending: bool, uploads: nat) -> Seq<char> {
    if parts.len() == 0 {
        if pending {
            "远端没有更新。本地另有 "@ + dec(uploads) + " 个改动没上传 ——「仅下载」不会往远端写。"@
        } else {
            "两边没有差异，无事可做。"@
        }
    } else {
        "同步完成："@ + join(parts, "、"@) + "。"@
    }
}

/// The sentences that follow the opening one.
pub open spec fn report_tail(
    nparts: nat,
    pending: bool,
    uploads: nat,
    resurrected: nat,
    conflicts: nat,
) -> Seq<char> {
    (if pending && nparts > 0 {
        "本地另有 "@ + dec(uploads) + " 个改动没上传（仅下载）。"@
    } else {
        seq![]
    }) + (if resurrected > 0 {
        "其中 "@ + dec(resurrected) + " 个文件远端删过但本地有改动，已重新上传。"@
    } else {
        seq![]
    }) + (if conflicts > 0 {
        "冲突文件的远端版本已另存为副本，本地原件未动。"@
    } else {
        seq![]
    })
}

/// The summary line of a synchronisation. `uploads` counts the local
/// changes found, which a download-only run (`!do_push`) leaves unsent.
pub open spec fn report_spec(
    pulled: nat,
    pushed: nat,
    local_deleted: nat,
    remote_deleted: nat,
    conflicts: nat,
    uploads: nat,
    do_push: bool,
    resurrected: nat,
) -> Seq<char> {
    let parts = report_parts(pulled, pushed, local_deleted, remote_deleted, conflicts);
    let pending = !do_push && uploads > 0;
    report_head(parts, pending, uploads) + report_tail(
        parts.len(),
        pending,
        uploads,
        resurrected,
        conflicts,
    )
}

fn labelled(label: &str, n: usize) -> (r: Vec<char>)
    ensures
        r@ == label@ + dec(n as nat),
{
    let a = chars_of(label);
    let b = fmt_usize(n);
    concat(&a, &b)
}

fn push_part(parts: &mut Vec<Vec<char>>, label: &str, n: usize)
    ensures
        keys_view(final(parts)@) == keys_view(old(parts)@) + labelled_if(label@, n as nat),
{
    if n > 0 {
        let p = labelled(label, n);
        let ghost before = keys_view(parts@);
        parts.push(p);
        assert(keys_view(parts@) =~= before + seq![label@ + dec(n as nat)]);
    } else {
        assert(keys_view(parts@) =~= keys_view(parts@) + Seq::<Seq<char>>::empty());
    }
}

fn report_head_exec(parts: &Vec<Vec<char>>, pending: bool, uploads: usize) -> (r: Vec<char>)
    ensures
        r@ == report_head(keys_view(parts@), pending, uploads as nat),
{
    if parts.len() == 0 {
        if pending {
            let mut m = chars_of("远端没有更新。本地另有 ");
            push_all(&mut m, &fmt_usize(uploads));
            push_all(&mut m, &chars_of(" 个改动没上传 ——「仅下载」不会往远端写。"));
            m
        } else {
            chars_of("两边没有差异，无事可做。")
        }
    } else {
        let mut m = chars_of("同步完成：");
        push_all(&mut m, &join_exec(parts, &chars_of("、")));
        push_all(&mut m, &chars_of("。"));
        m
    }
}

fn report_tail_exec(
    nparts: usize,
    pending: bool,
    uploads: usize,
    resurrected: usize,
    conflicts: usize,
) -> (r: Vec<char>)
    ensures
        r@ == report_tail(nparts as nat, pending, uploads as nat, resurrected as nat, conflicts as nat),
{
    let mut out: Vec<char> = Vec::new();
    if pending && nparts > 0 {
        push_all(&mut out, &chars_of("本地另有 "));
        push_all(&mut out, &fmt_usize(uploads));
        push_all(&mut out, &chars_of(" 个改动没上传（仅下载）。"));
    }
    let ghost a = out@;
    if resurrected > 0 {
        push_all(&mut out, &chars_of("其中 "));
        push_all(&mut out, &fmt_usize(resurrected));
        push_all(&mut out, &chars_of(" 个文件远端删过但本地有改动，已重新上传。"));
    }
    let ghost b = out@;
    if conflicts > 0 {
        push_all(&mut out, &chars_of("冲突文件的远端版本已另存为副本，本地原件未动。"));
    }
    assert(out@ =~= report_tail(nparts as nat, pending, uploads as nat, resurrected as nat, conflicts as nat));
    out
}

/// The summary of a synchronisation, from how many files went each way.
pub fn sync_message(
    pulled: usize,
    pushed: usize,
    local_deleted: usize,
    remote_deleted: usize,
    conflicts: usize,
    uploads: usize,
    do_push: bool,
    resurrected: usize,
) -> (r: String)
    ensures
        r@ == report_spec(
            pulled as nat,
            pushed as nat,
            local_deleted as nat,
            remote_deleted as nat,
            conflicts as nat,
            uploads as nat,
            do_push,
            resurrected as nat,
        ),
{
    let mut parts: Vec<Vec<char>> = Vec::new();
    assert(keys_view(parts@) =~= Seq::<Seq<char>>::empty());
    push_part(&mut parts, "下载 ", pulled);
    push_part(&mut parts, "上传 ", pushed);
    push_part(&mut parts, "删本地 ", local_deleted);
    push_part(&mut parts, "删远端 ", remote_deleted);
    push_part(&mut parts, "冲突 ", conflicts);
    assert(keys_view(parts@) =~= report_parts(
        pulled as nat,
        pushed as nat,
        local_deleted as nat,
        remote_deleted as nat,
        conflicts as nat,
    ));
    let pending = !do_push && uploads > 0;
    let head = report_head_exec(&parts, pending, uploads);
    let tail = report_tail_exec(parts.len(), pending, uploads, resurrected, conflicts);
    string_of(&concat(&head, &tail))
}

/// The first ten characters of a commit hash, as the report shows it.
pub fn short_commit(commit: &str) -> (r: String)
    ensures
        r@ == commit@.take(if commit@.len() < 10 { commit@.len() as int } else { 10 }),
{
    let c = chars_of(commit);
    let n = if c.len() < 10 { c.len() } else { 10 };
    let t = slice_chars(&c, 0, n);
    assert(t@ =~= commit@.take(n as int));
    string_of(&t)
}

/// The commit the local files now match: the new one when something was
/// pushed, else the remote head. The base advances even when nothing was
/// pushed, so that a later run does not take every pulled file for a
/// remote change.
pub fn final_head(pushed_commit: &str, remote_head: &str) -> (r: String)
    ensures
        r@ == (if pushed_commit@.len() == 0 {
            remote_head@
        } else {
            pushed_commit@
        }),
{
    if pushed_commit.is_empty() {
        remote_head.to_owned()
    } else {
        pushed_commit.to_owned()
    }
}


// ───────────────────────── laws ─────────────────────────

proof fn lemma_plan_entry(
    p: Seq<(Seq<char>, Action)>,
    local: Map<Seq<char>, Seq<char>>,
    remote: Map<Seq<char>, Seq<char>>,
    base: Map<Seq<char>, Seq<char>>,
    k: Seq<char>,
)
    requires
        is_plan_of(p, local, remote, base),
    ensures
        plan_get(p, k) == decide(entry(local, k), entry(remote, k), entry(base, k)),
{
    if exists|i: int| key_at(p, k, i) {
        let i = choose|i: int| key_at(p, k, i);
        assert(decide(entry(local, p[i].0), entry(remote, p[i].0), entry(base, p[i].0)) == Some(
            p[i].1,
        ));
    } else {
        if decide(entry(local, k), entry(remote, k), entry(base, k)) is Some {
            let i = choose|i: int| 0 <= i < p.len() && (#[trigger] p[i]).0 == k;
            assert(key_at(p, k, i));
        }
    }
}

/// The plan has something to do for a path exactly when the local and the
/// remote side differ there (in content, or in whether the file exists).
pub proof fn law_plan_acts_iff_sides_differ(
    p: Seq<(Seq<char>, Action)>,
    local: Map<Seq<char>, Seq<char>>,
    remote: Map<Seq<char>, Seq<char>>,
    base: Map<Seq<char>, Seq<char>>,
    k: Seq<char>,
)
    requires
        is_plan_of(p, local, remote, base),
    ensures
        plan_get(p, k) is Some <==> entry(local, k) != entry(remote, k),
{
    lemma_plan_entry(p, local, remote, base, k);
}

/// With no base (a first synchronisation), nothing is ever deleted on
/// either side.
pub proof fn law_first_sync_never_deletes(
    p: Seq<(Seq<char>, Action)>,
    local: Map<Seq<char>, Seq<char>>,
    remote: Map<Seq<char>, Seq<char>>,
    k: Seq<char>,
)
    requires
        is_plan_of(p, local, remote, Map::empty()),
    ensures
        plan_get(p, k) != Some(Action::DeleteLocal),
        plan_get(p, k) != Some(Action::DeleteRemote),
{
    lemma_plan_entry(p, local, remote, Map::empty(), k);
}

/// A local file is deleted only when the remote deleted it and the local
/// copy is still exactly what the base held.
pub proof fn law_local_delete_only_when_untouched(
    p: Seq<(Seq<char>, Action)>,
    local: Map<Seq<char>, Seq<char>>,
    remote: Map<Seq<char>, Seq<char>>,
    base: Map<Seq<char>, Seq<char>>,
    k: Seq<char>,
)
    requires
        is_plan_of(p, local, remote, base),
        plan_get(p, k) == Some(Action::DeleteLocal),
    ensures
        !remote.dom().contains(k),
        local.dom().contains(k),
        base.dom().contains(k),
        local[k] == base[k],
{
    lemma_plan_entry(p, local, remote, base, k);
}

/// A remote file is deleted only when it was deleted here and the remote
/// copy is still exactly what the base held.
pub proof fn law_remote_delete_only_when_untouched(
    p: Seq<(Seq<char>, Action)>,
    local: Map<Seq<char>, Seq<char>>,
    remote: Map<Seq<char>, Seq<char>>,
    base: Map<Seq<char>, Seq<char>>,
    k: Seq<char>,
)
    requires
        is_plan_of(p, local, remote, base),
        plan_get(p, k) == Some(Action::DeleteRemote),
    ensures
        !local.dom().contains(k),
        remote.dom().contains(k),
        base.dom().contains(k),
        remote[k] == base[k],
{
    lemma_plan_entry(p, local, remote, base, k);
}

/// A download never overwrites a local change: the local file is absent or
/// still what the base held.
pub proof fn law_download_keeps_local_edits(
    p: Seq<(Seq<char>, Action)>,
    local: Map<Seq<char>, Seq<char>>,
    remote: Map<Seq<char>, Seq<char>>,
    base: Map<Seq<char>, Seq<char>>,
    k: Seq<char>,
)
    requires
        is_plan_of(p, local, remote, base),
        plan_get(p, k) == Some(Action::Download),
    ensures
        remote.dom().contains(k),
        local.dom().contains(k) ==> base.dom().contains(k) && local[k] == base[k],
{
    lemma_plan_entry(p, local, remote, base, k);
}

/// An upload never overwrites a remote change: the remote file is absent or
/// still what the base held.
pub proof fn law_upload_keeps_remote_edits(
    p: Seq<(Seq<char>, Action)>,
    local: Map<Seq<char>, Seq<char>>,
    remote: Map<Seq<char>, Seq<char>>,
    base: Map<Seq<char>, Seq<char>>,
    k: Seq<char>,
    resurrect: bool,
)
    requires
        is_plan_of(p, local, remote, base),
        plan_get(p, k) == Some(Action::Upload { resurrect }),
    ensures
        local.dom().contains(k),
        remote.dom().contains(k) ==> base.dom().contains(k) && remote[k] == base[k],
        resurrect <==> !remote.dom().contains(k) && base.dom().contains(k),
{
    lemma_plan_entry(p, local, remote, base, k);
}

/// A conflict arises only where both sides hold the file, with different
/// contents, and the local side changed since the base.
pub proof fn law_conflict_when_both_changed(
    p: Seq<(Seq<char>, Action)>,
    local: Map<Seq<char>, Seq<char>>,
    remote: Map<Seq<char>, Seq<char>>,
    base: Map<Seq<char>, Seq<char>>,
    k: Seq<char>,
)
    requires
        is_plan_of(p, local, remote, base),
        plan_get(p, k) == Some(Action::Conflict),
    ensures
        local.dom().contains(k),
        remote.dom().contains(k),
        local[k] != remote[k],
        base.dom().contains(k) ==> base[k] != local[k] && base[k] != remote[k],
{
    lemma_plan_entry(p, local, remote, base, k);
}

/// After the guards, a protected path is never downloaded over nor
/// deleted locally.
pub proof fn law_guard_protects_open_files(
    p: Seq<(Seq<char>, Action)>,
    unusable: Seq<Seq<char>>,
    protect: Seq<Seq<char>>,
    i: int,
)
    requires
        0 <= i < guarded(p, unusable, protect).len(),
        protect.contains(guarded(p, unusable, protect)[i].0),
    ensures
        guarded(p, unusable, protect)[i].1 != Action::Download,
        guarded(p, unusable, protect)[i].1 != Action::DeleteLocal,
    decreases p.len(),
{
    let rest = guarded(p.drop_last(), unusable, protect);
    if i < rest.len() {
        law_guard_protects_open_files(p.drop_last(), unusable, protect, i);
    }
}

/// After the guards, no path that could not be read locally is left in
/// the plan, and every remaining entry comes from the plan with its action
/// unchanged, or turned from a download into a conflict copy.
pub proof fn law_guard_only_narrows(
    p: Seq<(Seq<char>, Action)>,
    unusable: Seq<Seq<char>>,
    protect: Seq<Seq<char>>,
    i: int,
)
    requires
        0 <= i < guarded(p, unusable, protect).len(),
    ensures
        !unusable.contains(guarded(p, unusable, protect)[i].0),
        exists|j: int|
            0 <= j < p.len() && (#[trigger] p[j]).0 == guarded(p, unusable, protect)[i].0 && (p[j].1
                == guarded(p, unusable, protect)[i].1 || (p[j].1 == Action::Download && guarded(
                p,
                unusable,
                protect,
            )[i].1 == Action::Conflict)),
    decreases p.len(),
{
    let rest = guarded(p.drop_last(), unusable, protect);
    if i < rest.len() {
        law_guard_only_narrows(p.drop_last(), unusable, protect, i);
        let j = choose|j: int|
            0 <= j < p.drop_last().len() && (#[trigger] p.drop_last()[j]).0 == rest[i].0 && (
            p.drop_last()[j].1 == rest[i].1 || (p.drop_last()[j].1 == Action::Download && rest[i].1
                == Action::Conflict));
        assert(p[j] == p.drop_last()[j]);
    } else {
        assert(p[p.len() - 1] == p.last());
    }
}

/// A path that is neither unreadable nor protected keeps its planned action.
pub proof fn law_guard_keeps_the_rest(
    p: Seq<(Seq<char>, Action)>,
    unusable: Seq<Seq<char>>,
    protect: Seq<Seq<char>>,
    j: int,
)
    requires
        0 <= j < p.len(),
        !unusable.contains(p[j].0),
        !protect.contains(p[j].0),
    ensures
        guarded(p, unusable, protect).contains(p[j]),
    decreases p.len(),
{
    if j < p.len() - 1 {
        law_guard_keeps_the_rest(p.drop_last(), unusable, protect, j);
        let rest = guarded(p.drop_last(), unusable, protect);
        let t = choose|t: int| 0 <= t < rest.len() && rest[t] == p.drop_last()[j];
        let g = guarded(p, unusable, protect);
        assert(g[t] == rest[t]);
    } else {
        let g = guarded(p, unusable, protect);
        assert(g[g.len() - 1] == p[j]);
    }
}

} // verus!
