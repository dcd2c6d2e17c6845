//! The index of the vault's documents: one entry per Markdown file, built
//! from its text, and what the views ask of it (statistics, tags, links
//! back, resolving a link).

use vstd::prelude::*;
use crate::note::{
    count_words, count_words_spec, derive_title, derive_title_spec, fm_items_spec, fm_str,
    fm_str_spec, link_set, links_from, opt_str, sorted_set_of, split_fm_spec, split_frontmatter,
    tag_set, tags_lines,
};
use crate::task::date_only;
use crate::text::{
    chars_eq, chars_of, concat, insert_sorted, is_prefix, keys_view, lines, push_all,
    replace_char, replace_char_exec, split_char, starts_with, string_of, strs, to_char_vecs,
    to_strings, trim, trim_end_chars, trim_exec, trim_end_str, trim_end_str_exec, slice_chars,
};

verus! {

/// What the index keeps of a document.
#[derive(Clone, Debug)]
pub struct NoteMeta {
    /// vault-relative, `/`-separated
    pub path: String,
    pub stem: String,
    pub title: String,
    /// `diary` or `note`
    pub kind: String,
    /// a diary's `YYYY-MM-DD`
    pub date: String,
    pub tags: Vec<String>,
    pub links: Vec<String>,
    pub words: usize,
    pub mtime: u64,
}

pub struct NoteMetaSpec {
    pub path: Seq<char>,
    pub stem: Seq<char>,
    pub title: Seq<char>,
    pub kind: Seq<char>,
    pub date: Seq<char>,
    pub tags: Seq<Seq<char>>,
    pub links: Seq<Seq<char>>,
    pub words: nat,
    pub mtime: nat,
}

impl View for NoteMeta {
    type V = NoteMetaSpec;

    open spec fn view(&self) -> NoteMetaSpec {
        NoteMetaSpec {
            path: self.path@,
            stem: self.stem@,
            title: self.title@,
            kind: self.kind@,
            date: self.date@,
            tags: strs(self.tags@),
            links: strs(self.links@),
            words: self.words as nat,
            mtime: self.mtime as nat,
        }
    }
}

pub open spec fn metas_view(v: Seq<NoteMeta>) -> Seq<NoteMetaSpec> {
    v.map_values(|m: NoteMeta| m@)
}

/// `m` is what the index keeps of the document at `rel` named `stem`, with
/// text `raw`, last changed at `mtime`, in a vault whose diaries live under
/// `diary_dir`.
pub open spec fn is_meta_of(
    m: NoteMetaSpec,
    rel: Seq<char>,
    stem: Seq<char>,
    raw: Seq<char>,
    diary_dir: Seq<char>,
    mtime: nat,
) -> bool {
    let (fm, body) = split_fm_spec(raw);
    &&& m.path == rel
    &&& m.stem == stem
    &&& m.title == derive_title_spec(body, fm, stem)
    &&& m.kind == (if is_prefix(diary_dir + "/"@, rel) {
        "diary"@
    } else {
        "note"@
    })
    &&& m.date == (if date_only(stem) {
        stem
    } else {
        fm_str_spec(fm, "date"@)
    })
    &&& sorted_set_of(m.tags, tags_lines(lines(body), false) + fm_items_spec(fm, "tags"@))
    &&& sorted_set_of(m.links, links_from(body, 0))
    &&& m.words == count_words_spec(body)
    &&& m.mtime == mtime
}

/// What the index keeps of one document, from its text.
pub fn note_meta(rel: &str, stem: &str, raw: &str, diary_dir: &str, mtime: u64) -> (m: NoteMeta)
    requires
        raw@.len() <= usize::MAX / 2,
    ensures
        is_meta_of(m@, rel@, stem@, raw@, diary_dir@, mtime as nat),
{
    let (fm, body) = split_frontmatter(raw);
    proof {
        assert(body@.len() <= raw@.len()) by {
            lemma_split_fm_len(raw@);
        }
    }
    let mut prefix = chars_of(diary_dir);
    push_all(&mut prefix, &chars_of("/"));
    let is_diary = starts_with(&chars_of(rel), &prefix);
    let stem_chars = chars_of(stem);
    let date = if stem_chars.len() == 10 && crate::task::date_only_exec(&stem_chars) {
        stem.to_owned()
    } else {
        fm_str(&fm, "date")
    };
    let mut tags = tag_set(body.as_str());
    let ghost body_tags = tags_lines(lines(body@), false);
    let extra = to_char_vecs(&crate::note::fm_items(&fm, "tags"));
    let ghost ex = keys_view(extra@);
    let mut i: usize = 0;
    while i < extra.len()
        invariant
            0 <= i <= extra@.len(),
            ex == keys_view(extra@),
            sorted_set_of(keys_view(tags@), body_tags + ex.take(i as int)),
        decreases extra.len() - i,
    {
        insert_sorted(&mut tags, &extra[i]);
        proof {
            let a = body_tags + ex.take(i as int);
            let b = body_tags + ex.take(i + 1);
            assert(b =~= a.push(ex[i as int]));
            assert forall|x: Seq<char>| #[trigger] keys_view(tags@).contains(x) <==> b.contains(x) by {
                if a.contains(x) {
                    let j = choose|j: int| 0 <= j < a.len() && a[j] == x;
                    assert(b[j] == x);
                }
                if x == ex[i as int] {
                    assert(b[b.len() - 1] == x);
                }
                if b.contains(x) && x != ex[i as int] {
                    let j = choose|j: int| 0 <= j < b.len() && b[j] == x;
                    assert(a[j] == x);
                }
            }
        }
        i += 1;
    }
    assert(ex.take(ex.len() as int) =~= ex);
    let title = derive_title(body.as_str(), &fm, stem);
    let links = link_set(body.as_str());
    let words = count_words(body.as_str());
    NoteMeta {
        path: rel.to_owned(),
        stem: stem.to_owned(),
        title,
        kind: if is_diary {
            "diary".to_owned()
        } else {
            "note".to_owned()
        },
        date,
        tags: to_strings(&tags),
        links: to_strings(&links),
        words,
        mtime,
    }
}

pub proof fn lemma_split_fm_len(raw: Seq<char>)
    ensures
        split_fm_spec(raw).1.len() <= raw.len(),
{
    let t = crate::note::strip_bom(raw);
    match crate::note::fm_open(t) {
        None => {},
        Some(o) => match crate::note::first_close(t, o) {
            None => {},
            Some(j) => {
                lemma_first_close(t, o);
                let e = crate::note::close_at(t, j)->Some_0;
                crate::note::lemma_blank_run(t, e);
            },
        },
    }
}

proof fn lemma_first_close(t: Seq<char>, from: int)
    requires
        0 <= from,
    ensures
        crate::note::first_close(t, from) matches Some(j) ==> from <= j && crate::note::close_at(
            t,
            j,
        ) is Some && 0 <= crate::note::close_at(t, j)->Some_0 <= t.len(),
    decreases t.len() - from,
{
    reveal_strlit("\r\n---");
    reveal_strlit("\n---");
    if from < t.len() && crate::note::close_at(t, from) is None {
        lemma_first_close(t, from + 1);
    }
}


// ───────────────────────── the index ─────────────────────────

/// The index: at most one entry per path, in the order they were added.
pub struct Index {
    notes: Vec<NoteMeta>,
}

impl View for Index {
    type V = Seq<NoteMetaSpec>;

    closed spec fn view(&self) -> Seq<NoteMetaSpec> {
        metas_view(self.notes@)
    }
}

pub open spec fn unique_paths(s: Seq<NoteMetaSpec>) -> bool {
    forall|i: int, j: int| 0 <= i < j < s.len() ==> (#[trigger] s[i]).path != (#[trigger] s[j]).path
}

/// The position of the entry for `p`, if any.
pub open spec fn find_path(s: Seq<NoteMetaSpec>, p: Seq<char>) -> Option<int> {
    if exists|i: int| 0 <= i < s.len() && (#[trigger] s[i]).path == p {
        Some(choose|i: int| 0 <= i < s.len() && (#[trigger] s[i]).path == p)
    } else {
        None
    }
}

pub proof fn lemma_find_path(s: Seq<NoteMetaSpec>, p: Seq<char>, i: int)
    requires
        unique_paths(s),
        0 <= i < s.len(),
        s[i].path == p,
    ensures
        find_path(s, p) == Some(i),
{
    let j = choose|j: int| 0 <= j < s.len() && (#[trigger] s[j]).path == p;
    if j != i {
        assert(s[i].path == s[j].path);
    }
}

impl Index {
    #[verifier::type_invariant]
    spec fn inv(self) -> bool {
        unique_paths(self@)
    }

    pub fn new() -> (r: Index)
        ensures
            r@ == Seq::<NoteMetaSpec>::empty(),
    {
        let r = Index { notes: Vec::new() };
        assert(r@ =~= Seq::<NoteMetaSpec>::empty());
        r
    }

    pub fn len(&self) -> (n: usize)
        ensures
            n == self@.len(),
    {
        self.notes.len()
    }

    /// Every entry, in order.
    pub fn notes(&self) -> (r: &Vec<NoteMeta>)
        ensures
            metas_view(r@) == self@,
            unique_paths(self@),
    {
        proof {
            use_type_invariant(self);
        }
        &self.notes
    }

    fn position(&self, path: &[char]) -> (r: Option<usize>)
        ensures
            match r {
                Some(i) => find_path(self@, path@) == Some(i as int) && i < self@.len(),
                None => find_path(self@, path@) is None,
            },
    {
        proof {
            use_type_invariant(self);
        }
        let mut i: usize = 0;
        while i < self.notes.len()
            invariant
                0 <= i <= self.notes@.len(),
                unique_paths(self@),
                forall|j: int| 0 <= j < i ==> (#[trigger] self@[j]).path != path@,
            decreases self.notes.len() - i,
        {
            assert(self@[i as int] == self.notes@[i as int]@);
            if chars_eq(&chars_of(self.notes[i].path.as_str()), path) {
                proof {
                    lemma_find_path(self@, path@, i as int);
                }
                return Some(i);
            }
            i += 1;
        }
        None
    }

    /// The entry for `path`, if any.
    pub fn get(&self, path: &str) -> (r: Option<&NoteMeta>)
        ensures
            match r {
                Some(m) => find_path(self@, path@) matches Some(i) && self@[i] == m@,
                None => find_path(self@, path@) is None,
            },
    {
        match self.position(&chars_of(path)) {
            Some(i) => {
                assert(self@[i as int] == self.notes@[i as int]@);
                Some(&self.notes[i])
            },
            None => None,
        }
    }

    /// Records `m`, replacing the entry with the same path if there is one.
    pub fn insert(&mut self, m: NoteMeta)
        ensures
            final(self)@ == (match find_path(old(self)@, m@.path) {
                Some(i) => old(self)@.update(i, m@),
                None => old(self)@.push(m@),
            }),
    {
        proof {
            use_type_invariant(&*self);
        }
        let pos = self.position(&chars_of(m.path.as_str()));
        let ghost before = self@;
        match pos {
            Some(i) => {
                let mut notes: Vec<NoteMeta> = Vec::new();
                std::mem::swap(&mut notes, &mut self.notes);
                notes.set(i, m);
                proof {
                    assert(metas_view(notes@) =~= before.update(i as int, notes@[i as int]@));
                    assert forall|a: int, b: int| 0 <= a < b < metas_view(notes@).len() implies (
                    #[trigger] metas_view(notes@)[a]).path != (#[trigger] metas_view(
                        notes@,
                    )[b]).path by {
                        assert(before[a].path != before[b].path);
                    }
                }
                self.notes = notes;
            },
            None => {
                let mut notes: Vec<NoteMeta> = Vec::new();
                std::mem::swap(&mut notes, &mut self.notes);
                notes.push(m);
                proof {
                    assert(metas_view(notes@) =~= before.push(notes@[notes@.len() - 1]@));
                    assert forall|a: int, b: int| 0 <= a < b < metas_view(notes@).len() implies (
                    #[trigger] metas_view(notes@)[a]).path != (#[trigger] metas_view(
                        notes@,
                    )[b]).path by {
                        if b == before.len() {
                            assert(before[a].path != metas_view(notes@)[b].path);
                        }
                    }
                }
                self.notes = notes;
            },
        }
    }

    /// Drops the entry for `path`, if there is one.
    pub fn remove(&mut self, path: &str)
        ensures
            final(self)@ == (match find_path(old(self)@, path@) {
                Some(i) => old(self)@.remove(i),
                None => old(self)@,
            }),
    {
        proof {
            use_type_invariant(&*self);
        }
        let pos = self.position(&chars_of(path));
        let ghost before = self@;
        match pos {
            Some(i) => {
                let mut notes: Vec<NoteMeta> = Vec::new();
                std::mem::swap(&mut notes, &mut self.notes);
                notes.remove(i);
                proof {
                    assert(metas_view(notes@) =~= before.remove(i as int));
                    assert forall|a: int, b: int| 0 <= a < b < metas_view(notes@).len() implies (
                    #[trigger] metas_view(notes@)[a]).path != (#[trigger] metas_view(
                        notes@,
                    )[b]).path by {
                        let aa = if a < i { a } else { a + 1 };
                        let bb = if b < i { b } else { b + 1 };
                        assert(metas_view(notes@)[a] == before[aa]);
                        assert(metas_view(notes@)[b] == before[bb]);
                    }
                }
                self.notes = notes;
            },
            None => {},
        }
    }
}


// ───────────────────────── statistics ─────────────────────────

/// Counts of the index as the status view shows them.
#[derive(Clone, Debug)]
pub struct IndexStats {
    pub notes: usize,
    pub diaries: usize,
    pub words: usize,
    pub links: usize,
    pub orphans: usize,
}

pub open spec fn count_kind(s: Seq<NoteMetaSpec>, kind: Seq<char>) -> nat {
    s.filter(|m: NoteMetaSpec| m.kind == kind).len()
}

pub open spec fn sum_words(s: Seq<NoteMetaSpec>) -> nat
    decreases s.len(),
{
    if s.len() == 0 {
        0
    } else {
        sum_words(s.drop_last()) + s.last().words
    }
}

pub open spec fn sum_links(s: Seq<NoteMetaSpec>) -> nat
    decreases s.len(),
{
    if s.len() == 0 {
        0
    } else {
        sum_links(s.drop_last()) + s.last().links.len()
    }
}

/// An orphan links nowhere and no other document links to its name.
pub open spec fn is_orphan(s: Seq<NoteMetaSpec>, m: NoteMetaSpec) -> bool {
    m.links.len() == 0 && !exists|j: int|
        0 <= j < s.len() && (#[trigger] s[j]).path != m.path && s[j].links.contains(m.stem)
}

pub open spec fn count_orphans(s: Seq<NoteMetaSpec>) -> nat {
    s.filter(|m: NoteMetaSpec| is_orphan(s, m)).len()
}

fn seq_contains_str(v: &Vec<String>, x: &[char]) -> (r: bool)
    ensures
        r == strs(v@).contains(x@),
{
    let mut i: usize = 0;
    while i < v.len()
        invariant
            0 <= i <= v@.len(),
            forall|j: int| 0 <= j < i ==> v@[j]@ != x@,
        decreases v.len() - i,
    {
        if chars_eq(&chars_of(v[i].as_str()), x) {
            assert(strs(v@)[i as int] == x@);
            return true;
        }
        i += 1;
    }
    proof {
        if strs(v@).contains(x@) {
            let j = choose|j: int| 0 <= j < strs(v@).len() && strs(v@)[j] == x@;
            assert(v@[j]@ == x@);
        }
    }
    false
}

fn is_orphan_exec(notes: &Vec<NoteMeta>, m: &NoteMeta) -> (r: bool)
    ensures
        r == is_orphan(metas_view(notes@), m@),
{
    if m.links.len() > 0 {
        return false;
    }
    let stem = chars_of(m.stem.as_str());
    let path = chars_of(m.path.as_str());
    let ghost s = metas_view(notes@);
    let mut j: usize = 0;
    while j < notes.len()
        invariant
            0 <= j <= notes@.len(),
            s == metas_view(notes@),
            stem@ == m.stem@,
            path@ == m.path@,
            forall|k: int| 0 <= k < j ==> !((#[trigger] s[k]).path != m@.path && s[k].links.contains(m@.stem)),
        decreases notes.len() - j,
    {
        assert(s[j as int] == notes@[j as int]@);
        if !chars_eq(&chars_of(notes[j].path.as_str()), &path) && seq_contains_str(&notes[j].links, &stem) {
            return false;
        }
        j += 1;
    }
    true
}

/// Counts of notes and diaries, total words and links, and orphans.
pub fn index_stats(idx: &Index) -> (r: IndexStats)
    requires
        sum_words(idx@) <= usize::MAX,
        sum_links(idx@) <= usize::MAX,
    ensures
        r.notes == count_kind(idx@, "note"@),
        r.diaries == count_kind(idx@, "diary"@),
        r.words == sum_words(idx@),
        r.links == sum_links(idx@),
        r.orphans == count_orphans(idx@),
{
    let notes = idx.notes();
    let ghost s = idx@;
    let note_k = chars_of("note");
    let diary_k = chars_of("diary");
    let mut n_notes: usize = 0;
    let mut n_diaries: usize = 0;
    let mut words: usize = 0;
    let mut links: usize = 0;
    let mut orphans: usize = 0;
    let mut i: usize = 0;
    while i < notes.len()
        invariant
            0 <= i <= notes@.len(),
            s == metas_view(notes@),
            note_k@ == "note"@,
            diary_k@ == "diary"@,
            sum_words(s) <= usize::MAX,
            sum_links(s) <= usize::MAX,
            n_notes == count_kind(s.take(i as int), "note"@),
            n_diaries == count_kind(s.take(i as int), "diary"@),
            words == sum_words(s.take(i as int)),
            links == sum_links(s.take(i as int)),
            orphans == s.take(i as int).filter(|m: NoteMetaSpec| is_orphan(s, m)).len(),
            n_notes <= i,
            n_diaries <= i,
            orphans <= i,
        decreases notes.len() - i,
    {
        let m = &notes[i];
        assert(s[i as int] == m@);
        proof {
            assert(s.take(i + 1).drop_last() =~= s.take(i as int));
            reveal(Seq::filter);
            lemma_sums_prefix(s, i + 1);
        }
        let k = chars_of(m.kind.as_str());
        if chars_eq(&k, &note_k) {
            n_notes += 1;
        }
        if chars_eq(&k, &diary_k) {
            n_diaries += 1;
        }
        words = words + m.words;
        links = links + m.links.len();
        if is_orphan_exec(notes, m) {
            orphans += 1;
        }
        i += 1;
    }
    assert(s.take(s.len() as int) =~= s);
    IndexStats { notes: n_notes, diaries: n_diaries, words, links, orphans }
}

proof fn lemma_sums_prefix(s: Seq<NoteMetaSpec>, n: int)
    requires
        0 <= n <= s.len(),
    ensures
        sum_words(s.take(n)) <= sum_words(s),
        sum_links(s.take(n)) <= sum_links(s),
    decreases s.len() - n,
{
    if n < s.len() {
        lemma_sums_prefix(s, n + 1);
        assert(s.take(n + 1).drop_last() =~= s.take(n));
    } else {
        assert(s.take(n) =~= s);
    }
}


// ───────────────────────── the index's laws ─────────────────────────

/// What the index holds after `insert`.
pub open spec fn inserted(s: Seq<NoteMetaSpec>, m: NoteMetaSpec) -> Seq<NoteMetaSpec> {
    match find_path(s, m.path) {
        Some(i) => s.update(i, m),
        None => s.push(m),
    }
}

/// What the index holds after `remove`.
pub open spec fn removed(s: Seq<NoteMetaSpec>, p: Seq<char>) -> Seq<NoteMetaSpec> {
    match find_path(s, p) {
        Some(i) => s.remove(i),
        None => s,
    }
}

/// The entry the index gives for `p`.
pub open spec fn entry_at(s: Seq<NoteMetaSpec>, p: Seq<char>) -> Option<NoteMetaSpec> {
    match find_path(s, p) {
        Some(i) => Some(s[i]),
        None => None,
    }
}

/// A document read after it was recorded is what was recorded, and the
/// others are untouched.
pub proof fn law_get_after_insert(s: Seq<NoteMetaSpec>, m: NoteMetaSpec, p: Seq<char>)
    requires
        unique_paths(s),
    ensures
        entry_at(inserted(s, m), m.path) == Some(m),
        p != m.path ==> entry_at(inserted(s, m), p) == entry_at(s, p),
        unique_paths(inserted(s, m)),
{
    let t = inserted(s, m);
    match find_path(s, m.path) {
        Some(i) => {
            let i0 = choose|j: int| 0 <= j < s.len() && (#[trigger] s[j]).path == m.path;
            lemma_find_path(s, m.path, i0);
            assert(unique_paths(t)) by {
                assert forall|a: int, b: int| 0 <= a < b < t.len() implies (#[trigger] t[a]).path != (#[trigger] t[b]).path by {
                    assert(s[a].path != s[b].path);
                }
            }
            lemma_find_path(t, m.path, i);
            if p != m.path {
                if exists|j: int| 0 <= j < t.len() && (#[trigger] t[j]).path == p {
                    let j = choose|j: int| 0 <= j < t.len() && (#[trigger] t[j]).path == p;
                    lemma_find_path(t, p, j);
                    lemma_find_path(s, p, j);
                } else {
                    if exists|j: int| 0 <= j < s.len() && (#[trigger] s[j]).path == p {
                        let j = choose|j: int| 0 <= j < s.len() && (#[trigger] s[j]).path == p;
                        assert(t[j].path == p);
                    }
                }
            }
        },
        None => {
            assert(unique_paths(t)) by {
                assert forall|a: int, b: int| 0 <= a < b < t.len() implies (#[trigger] t[a]).path != (#[trigger] t[b]).path by {
                    if b == s.len() {
                        assert(s[a] == t[a]);
                    } else {
                        assert(s[a].path != s[b].path);
                    }
                }
            }
            lemma_find_path(t, m.path, s.len() as int);
            if p != m.path {
                if exists|j: int| 0 <= j < t.len() && (#[trigger] t[j]).path == p {
                    let j = choose|j: int| 0 <= j < t.len() && (#[trigger] t[j]).path == p;
                    lemma_find_path(t, p, j);
                    lemma_find_path(s, p, j);
                } else {
                    if exists|j: int| 0 <= j < s.len() && (#[trigger] s[j]).path == p {
                        let j = choose|j: int| 0 <= j < s.len() && (#[trigger] s[j]).path == p;
                        assert(t[j].path == p);
                    }
                }
            }
        },
    }
}

/// A document removed is gone, and the others are untouched.
pub proof fn law_get_after_remove(s: Seq<NoteMetaSpec>, q: Seq<char>, p: Seq<char>)
    requires
        unique_paths(s),
    ensures
        entry_at(removed(s, q), q) is None,
        p != q ==> entry_at(removed(s, q), p) == entry_at(s, p),
        unique_paths(removed(s, q)),
{
    let t = removed(s, q);
    match find_path(s, q) {
        Some(i) => {
            let i0 = choose|j: int| 0 <= j < s.len() && (#[trigger] s[j]).path == q;
            lemma_find_path(s, q, i0);
            assert(unique_paths(t)) by {
                assert forall|a: int, b: int| 0 <= a < b < t.len() implies (#[trigger] t[a]).path != (#[trigger] t[b]).path by {
                    let aa = if a < i { a } else { a + 1 };
                    let bb = if b < i { b } else { b + 1 };
                    assert(t[a] == s[aa]);
                    assert(t[b] == s[bb]);
                    assert(s[aa].path != s[bb].path);
                }
            }
            if exists|j: int| 0 <= j < t.len() && (#[trigger] t[j]).path == q {
                let j = choose|j: int| 0 <= j < t.len() && (#[trigger] t[j]).path == q;
                let jj = if j < i { j } else { j + 1 };
                assert(s[jj].path == q);
                assert(s[i].path == q);
            }
            if p != q {
                if exists|j: int| 0 <= j < t.len() && (#[trigger] t[j]).path == p {
                    let j = choose|j: int| 0 <= j < t.len() && (#[trigger] t[j]).path == p;
                    let jj = if j < i { j } else { j + 1 };
                    lemma_find_path(t, p, j);
                    assert(t[j] == s[jj]);
                    lemma_find_path(s, p, jj);
                } else {
                    if exists|j: int| 0 <= j < s.len() && (#[trigger] s[j]).path == p {
                        let j = choose|j: int| 0 <= j < s.len() && (#[trigger] s[j]).path == p;
                        assert(j != i);
                        let jj = if j < i { j } else { j - 1 };
                        assert(t[jj].path == p);
                    }
                }
            }
        },
        None => {},
    }
}

// ───────────────────────── links back, and resolving a link ─────────────────────────

/// A document links back to one known by any of `targets` when it is
/// another document and one of its links is one of them.
pub open spec fn links_to(m: NoteMetaSpec, rel: Seq<char>, targets: Seq<Seq<char>>) -> bool {
    m.path != rel && exists|i: int| 0 <= i < m.links.len() && targets.contains(#[trigger] m.links[i])
}

/// The names a document is linked by: its file name, its title, and its
/// path without `.md`.
pub open spec fn link_targets(rel: Seq<char>, stem: Seq<char>, title: Seq<char>) -> Seq<Seq<char>> {
    seq![stem, title, trim_end_str(rel, ".md"@)]
}

/// The documents that link to `rel`.
pub open spec fn backlinks_spec(s: Seq<NoteMetaSpec>, rel: Seq<char>, stem: Seq<char>, title: Seq<char>) -> Seq<
    NoteMetaSpec,
>
    decreases s.len(),
{
    if s.len() == 0 {
        seq![]
    } else {
        let rest = backlinks_spec(s.drop_last(), rel, stem, title);
        if links_to(s.last(), rel, link_targets(rel, stem, title)) {
            rest.push(s.last())
        } else {
            rest
        }
    }
}

fn links_any(m: &NoteMeta, targets: &Vec<Vec<char>>) -> (r: bool)
    ensures
        r == exists|i: int| 0 <= i < m@.links.len() && keys_view(targets@).contains(#[trigger] m@.links[i]),
{
    let mut i: usize = 0;
    while i < m.links.len()
        invariant
            0 <= i <= m.links@.len(),
            forall|k: int| 0 <= k < i ==> !keys_view(targets@).contains(#[trigger] m@.links[k]),
        decreases m.links.len() - i,
    {
        let l = chars_of(m.links[i].as_str());
        let mut j: usize = 0;
        while j < targets.len()
            invariant
                0 <= j <= targets@.len(),
                0 <= i < m@.links.len(),
                l@ == m@.links[i as int],
                forall|q: int| 0 <= q < j ==> targets@[q]@ != l@,
            decreases targets.len() - j,
        {
            if chars_eq(&targets[j], &l) {
                assert(keys_view(targets@)[j as int] == l@);
                assert(keys_view(targets@).contains(m@.links[i as int]));
                return true;
            }
            j += 1;
        }
        assert(!keys_view(targets@).contains(m@.links[i as int])) by {
            if keys_view(targets@).contains(l@) {
                let q = choose|q: int| 0 <= q < keys_view(targets@).len() && keys_view(targets@)[q] == l@;
                assert(targets@[q]@ == l@);
            }
        }
        i += 1;
    }
    false
}

/// The documents that link to the one at `rel`, known by `stem` and
/// `title`, in index order.
pub fn backlinks(idx: &Index, rel: &str, stem: &str, title: &str) -> (r: Vec<NoteMeta>)
    ensures
        metas_view(r@) == backlinks_spec(idx@, rel@, stem@, title@),
{
    let notes = idx.notes();
    let ghost s = idx@;
    let mut targets: Vec<Vec<char>> = Vec::new();
    targets.push(chars_of(stem));
    targets.push(chars_of(title));
    targets.push(trim_end_str_exec(&chars_of(rel), &chars_of(".md")));
    assert(keys_view(targets@) =~= link_targets(rel@, stem@, title@));
    let rc = chars_of(rel);
    let mut out: Vec<NoteMeta> = Vec::new();
    let mut i: usize = 0;
    assert(s.take(0) =~= Seq::<NoteMetaSpec>::empty());
    while i < notes.len()
        invariant
            0 <= i <= notes@.len(),
            s == metas_view(notes@),
            rc@ == rel@,
            keys_view(targets@) == link_targets(rel@, stem@, title@),
            metas_view(out@) == backlinks_spec(s.take(i as int), rel@, stem@, title@),
        decreases notes.len() - i,
    {
        assert(s.take(i + 1).drop_last() =~= s.take(i as int));
        assert(s.take(i + 1).last() == notes@[i as int]@);
        let m = &notes[i];
        if !chars_eq(&chars_of(m.path.as_str()), &rc) && links_any(m, &targets) {
            let ghost before = metas_view(out@);
            out.push(copy_meta(m));
            assert(metas_view(out@) =~= before.push(m@));
        }
        i += 1;
    }
    assert(s.take(s.len() as int) =~= s);
    out
}

/// A copy of a document's entry.
pub fn copy_meta(m: &NoteMeta) -> (r: NoteMeta)
    ensures
        r@ == m@,
{
    NoteMeta {
        path: m.path.clone(),
        stem: m.stem.clone(),
        title: m.title.clone(),
        kind: m.kind.clone(),
        date: m.date.clone(),
        tags: copy_strings(&m.tags),
        links: copy_strings(&m.links),
        words: m.words,
        mtime: m.mtime,
    }
}

fn copy_strings(v: &Vec<String>) -> (r: Vec<String>)
    ensures
        strs(r@) == strs(v@),
{
    let mut r: Vec<String> = Vec::new();
    let mut i: usize = 0;
    while i < v.len()
        invariant
            0 <= i <= v@.len(),
            strs(r@) == strs(v@).take(i as int),
        decreases v.len() - i,
    {
        let ghost before = strs(r@);
        r.push(v[i].clone());
        assert(strs(r@) =~= before.push(v@[i as int]@));
        assert(strs(v@).take(i + 1) =~= strs(v@).take(i as int).push(v@[i as int]@));
        i += 1;
    }
    assert(strs(v@).take(v@.len() as int) =~= strs(v@));
    r
}

/// A path with each backslash (the Windows separator) written as `/`.
pub open spec fn slashed(p: Seq<char>) -> Seq<char> {
    crate::text::replace_char(p, '\\', '/')
}

/// The names of a path's parts that are not empty or `.` (the ones that
/// `Path::components` gives as names), a slash or a backslash separating them.
pub open spec fn path_parts(p: Seq<char>) -> Seq<Seq<char>> {
    named_parts(split_char(slashed(p), '/'))
}

/// The parts that are names: not empty, not `.`.
pub open spec fn named_parts(ps: Seq<Seq<char>>) -> Seq<Seq<char>>
    decreases ps.len(),
{
    if ps.len() == 0 {
        seq![]
    } else if ps.last().len() > 0 && ps.last() != "."@ {
        named_parts(ps.drop_last()).push(ps.last())
    } else {
        named_parts(ps.drop_last())
    }
}

/// `Path::file_stem` of a path: the last part without its
/// extension; none when the path has no last name or it is `..`.
pub open spec fn file_stem_spec(p: Seq<char>) -> Option<Seq<char>> {
    let parts = path_parts(p);
    if parts.len() == 0 || parts.last() == ".."@ {
        None
    } else {
        let name = parts.last();
        match last_dot(name) {
            Some(i) => if i == 0 {
                Some(name)
            } else {
                Some(name.take(i))
            },
            None => Some(name),
        }
    }
}

/// The position of the last `.`.
pub open spec fn last_dot(s: Seq<char>) -> Option<int>
    decreases s.len(),
{
    if s.len() == 0 {
        None
    } else if s.last() == '.' {
        Some(s.len() - 1)
    } else {
        last_dot(s.drop_last())
    }
}

fn last_dot_exec(s: &Vec<char>) -> (r: Option<usize>)
    ensures
        match r {
            Some(i) => last_dot(s@) == Some(i as int) && i < s@.len(),
            None => last_dot(s@) is None,
        },
{
    let mut i = s.len();
    assert(s@.take(i as int) =~= s@);
    while i > 0
        invariant
            i <= s@.len(),
            last_dot(s@) == last_dot(s@.take(i as int)),
        decreases i,
    {
        assert(s@.take(i as int).last() == s@[i - 1]);
        if s[i - 1] == '.' {
            return Some(i - 1);
        }
        assert(s@.take(i as int).drop_last() =~= s@.take(i - 1));
        i -= 1;
    }
    None
}

/// `Path::file_stem` of a path (a slash or a backslash between its parts).
pub fn file_stem(p: &str) -> (r: Option<String>)
    ensures
        match r {
            Some(x) => file_stem_spec(p@) == Some(x@),
            None => file_stem_spec(p@) is None,
        },
{
    let q = crate::text::replace_char_exec(&chars_of(p), '\\', '/');
    let split = crate::text::split_char_exec(&q, '/');
    let ghost sp = split_char(slashed(p@), '/');
    let mut parts: Vec<Vec<char>> = Vec::new();
    let mut i: usize = 0;
    let dot = chars_of(".");
    assert(sp.take(0) =~= Seq::<Seq<char>>::empty());
    while i < split.len()
        invariant
            0 <= i <= split@.len(),
            split@.len() == sp.len(),
            forall|k: int| 0 <= k < split@.len() ==> #[trigger] split@[k]@ == sp[k],
            dot@ == "."@,
            keys_view(parts@) == named_parts(sp.take(i as int)),
        decreases split.len() - i,
    {
        assert(sp.take(i + 1).drop_last() =~= sp.take(i as int));
        assert(sp.take(i + 1).last() == split@[i as int]@);
        if split[i].len() > 0 && !chars_eq(&split[i], &dot) {
            let ghost before = keys_view(parts@);
            let c = slice_chars(&split[i], 0, split[i].len());
            assert(c@ =~= split@[i as int]@);
            parts.push(c);
            assert(keys_view(parts@) =~= before.push(split@[i as int]@));
        }
        i += 1;
    }
    assert(sp.take(sp.len() as int) =~= sp);
    if parts.len() == 0 || chars_eq(&parts[parts.len() - 1], &chars_of("..")) {
        return None;
    }
    let name = &parts[parts.len() - 1];
    assert(keys_view(parts@).last() == name@);
    match last_dot_exec(name) {
        Some(k) => if k == 0 {
            Some(string_of(name))
        } else {
            Some(string_of(&slice_chars(name, 0, k)))
        },
        None => Some(string_of(name)),
    }
}

/// The first entry (lowest position) with this stem, only non-diaries when
/// `non_diary`.
pub open spec fn first_with_stem(s: Seq<NoteMetaSpec>, stem: Seq<char>, non_diary: bool) -> Option<int>
    decreases s.len(),
{
    if s.len() == 0 {
        None
    } else {
        match first_with_stem(s.drop_last(), stem, non_diary) {
            Some(i) => Some(i),
            None => if s.last().stem == stem && (!non_diary || s.last().kind != "diary"@) {
                Some(s.len() - 1)
            } else {
                None
            },
        }
    }
}

/// What a link points at: the document at the path it names (with or
/// without `.md`, `\` read as `/`), else the first one with its file name,
/// a note before a diary.
pub open spec fn resolve_spec(s: Seq<NoteMetaSpec>, target: Seq<char>) -> Option<NoteMetaSpec> {
    let t = trim(target);
    let c1 = replace_char(t, '\\', '/');
    let c2 = replace_char(t + ".md"@, '\\', '/');
    if entry_at(s, c1) is Some {
        entry_at(s, c1)
    } else if entry_at(s, c2) is Some {
        entry_at(s, c2)
    } else {
        let stem = match file_stem_spec(t) {
            Some(x) => x,
            None => t,
        };
        match first_with_stem(s, stem, true) {
            Some(i) => Some(s[i]),
            None => match first_with_stem(s, stem, false) {
                Some(i) => Some(s[i]),
                None => None,
            },
        }
    }
}

fn first_with_stem_exec(notes: &Vec<NoteMeta>, stem: &Vec<char>, non_diary: bool) -> (r: Option<usize>)
    ensures
        match r {
            Some(i) => first_with_stem(metas_view(notes@), stem@, non_diary) == Some(i as int) && i < notes@.len(),
            None => first_with_stem(metas_view(notes@), stem@, non_diary) is None,
        },
{
    let ghost s = metas_view(notes@);
    let diary = chars_of("diary");
    let mut i: usize = 0;
    assert(s.take(0) =~= Seq::<NoteMetaSpec>::empty());
    while i < notes.len()
        invariant
            0 <= i <= notes@.len(),
            s == metas_view(notes@),
            diary@ == "diary"@,
            first_with_stem(s.take(i as int), stem@, non_diary) is None,
        decreases notes.len() - i,
    {
        assert(s.take(i + 1).drop_last() =~= s.take(i as int));
        assert(s.take(i + 1).last() == notes@[i as int]@);
        let m = &notes[i];
        if chars_eq(&chars_of(m.stem.as_str()), stem) && (!non_diary || !chars_eq(&chars_of(m.kind.as_str()), &diary)) {
            proof {
                lemma_first_with_stem_prefix(s, stem@, non_diary, i + 1);
            }
            return Some(i);
        }
        i += 1;
    }
    assert(s.take(s.len() as int) =~= s);
    None
}

proof fn lemma_first_with_stem_prefix(s: Seq<NoteMetaSpec>, stem: Seq<char>, non_diary: bool, n: int)
    requires
        0 < n <= s.len(),
        first_with_stem(s.take(n), stem, non_diary) is Some,
    ensures
        first_with_stem(s, stem, non_diary) == first_with_stem(s.take(n), stem, non_diary),
    decreases s.len() - n,
{
    if n < s.len() {
        assert(s.take(n + 1).drop_last() =~= s.take(n));
        lemma_first_with_stem_prefix(s, stem, non_diary, n + 1);
    } else {
        assert(s.take(n) =~= s);
    }
}

/// The document a link points at.
pub fn find_by_target(idx: &Index, target: &str) -> (r: Option<NoteMeta>)
    ensures
        match r {
            Some(m) => resolve_spec(idx@, target@) == Some(m@),
            None => resolve_spec(idx@, target@) is None,
        },
{
    let t = trim_exec(&chars_of(target));
    let c1 = replace_char_exec(&t, '\\', '/');
    let c2 = replace_char_exec(&concat(&t, &chars_of(".md")), '\\', '/');
    match idx.get(string_of(&c1).as_str()) {
        Some(m) => {
            return Some(copy_meta(m));
        },
        None => {},
    }
    match idx.get(string_of(&c2).as_str()) {
        Some(m) => {
            return Some(copy_meta(m));
        },
        None => {},
    }
    let stem = match file_stem(string_of(&t).as_str()) {
        Some(x) => chars_of(x.as_str()),
        None => t,
    };
    let notes = idx.notes();
    match first_with_stem_exec(notes, &stem, true) {
        Some(i) => Some(copy_meta(&notes[i])),
        None => match first_with_stem_exec(notes, &stem, false) {
            Some(i) => Some(copy_meta(&notes[i])),
            None => None,
        },
    }
}

/// The path of the document a link points at.
pub fn resolve_link(idx: &Index, target: &str) -> (r: Option<String>)
    ensures
        match r {
            Some(p) => resolve_spec(idx@, target@) matches Some(m) && m.path == p@,
            None => resolve_spec(idx@, target@) is None,
        },
{
    match find_by_target(idx, target) {
        Some(m) => Some(m.path),
        None => None,
    }
}

// ───────────────────────── folders ─────────────────────────

/// A folder may be changed only inside the notes folder: `rel`, without
/// slashes at its ends, is the notes folder or lies under it.
pub open spec fn under_notes(notes_dir: Seq<char>, rel: Seq<char>) -> bool {
    let r = crate::text::trim_start_chars(trim_end_chars(rel, seq!['/']), seq!['/']);
    r == notes_dir || is_prefix(notes_dir + "/"@, r)
}

/// Whether a folder may be changed: only inside the notes folder.
pub fn guard_under_notes(notes_dir: &str, rel: &str) -> (r: Result<(), String>)
    ensures
        r is Ok <==> under_notes(notes_dir@, rel@),
        r matches Err(e) ==> e@ == "只能操作「笔记」目录下的文件夹"@,
{
    let mut slash: Vec<char> = Vec::new();
    slash.push('/');
    assert(slash@ =~= seq!['/']);
    let r = crate::text::trim_start_chars_exec(&crate::text::trim_end_chars_exec(&chars_of(rel), &slash), &slash);
    let root = chars_of(notes_dir);
    let with_slash = concat(&root, &chars_of("/"));
    if chars_eq(&r, &root) || starts_with(&r, &with_slash) {
        Ok(())
    } else {
        Err("只能操作「笔记」目录下的文件夹".to_owned())
    }
}

// ───────────────────────── tags ─────────────────────────

/// How many times `t` occurs in `v`.
pub open spec fn occurrences(v: Seq<Seq<char>>, t: Seq<char>) -> nat
    decreases v.len(),
{
    if v.len() == 0 {
        0
    } else {
        occurrences(v.drop_last(), t) + if v.last() == t { 1nat } else { 0nat }
    }
}

/// How many times tag `t` is given, over all documents.
pub open spec fn tag_count(s: Seq<NoteMetaSpec>, t: Seq<char>) -> nat
    decreases s.len(),
{
    if s.len() == 0 {
        0
    } else {
        tag_count(s.drop_last(), t) + occurrences(s.last().tags, t)
    }
}

/// All tags given, over all documents.
pub open spec fn total_tags(s: Seq<NoteMetaSpec>) -> nat
    decreases s.len(),
{
    if s.len() == 0 {
        0
    } else {
        total_tags(s.drop_last()) + s.last().tags.len()
    }
}

/// The order of the tag list: more uses first, then by name.
pub open spec fn tag_before(a: (Seq<char>, nat), b: (Seq<char>, nat)) -> bool {
    a.1 > b.1 || (a.1 == b.1 && crate::text::seq_lt(a.0, b.0))
}

pub open spec fn tag_list_view(v: Seq<(String, usize)>) -> Seq<(Seq<char>, nat)> {
    v.map_values(|e: (String, usize)| (e.0@, e.1 as nat))
}

/// `r` is the tag list of `s`: every tag once with how often it is given,
/// in `tag_before` order.
pub open spec fn is_tag_list(r: Seq<(Seq<char>, nat)>, s: Seq<NoteMetaSpec>) -> bool {
    &&& forall|i: int, j: int| 0 <= i < j < r.len() ==> tag_before(#[trigger] r[i], #[trigger] r[j])
    &&& forall|i: int| 0 <= i < r.len() ==> (#[trigger] r[i]).1 == tag_count(s, r[i].0) && r[i].1 > 0
    &&& forall|t: Seq<char>| tag_count(s, t) > 0 ==> exists|i: int| 0 <= i < r.len() && (#[trigger] r[i]).0 == t
}

proof fn lemma_tag_before_strict(a: (Seq<char>, nat), b: (Seq<char>, nat), c: (Seq<char>, nat))
    ensures
        !tag_before(a, a),
        tag_before(a, b) ==> !tag_before(b, a),
        tag_before(a, b) && tag_before(b, c) ==> tag_before(a, c),
        a.0 != b.0 ==> tag_before(a, b) || tag_before(b, a),
{
    crate::text::lemma_seq_lt_irreflexive(a.0);
    if tag_before(a, b) && a.1 == b.1 && crate::text::seq_lt(b.0, a.0) {
        crate::text::lemma_seq_lt_asymmetric(a.0, b.0);
    }
    if tag_before(a, b) && tag_before(b, c) && a.1 == b.1 && b.1 == c.1 {
        crate::text::lemma_seq_lt_transitive(a.0, b.0, c.0);
    }
    crate::text::lemma_seq_lt_total(a.0, b.0);
}

proof fn lemma_tag_count_le_total(s: Seq<NoteMetaSpec>, t: Seq<char>)
    ensures
        tag_count(s, t) <= total_tags(s),
    decreases s.len(),
{
    if s.len() > 0 {
        lemma_tag_count_le_total(s.drop_last(), t);
        lemma_occurrences_le(s.last().tags, t);
    }
}

proof fn lemma_occurrences_le(v: Seq<Seq<char>>, t: Seq<char>)
    ensures
        occurrences(v, t) <= v.len(),
    decreases v.len(),
{
    if v.len() > 0 {
        lemma_occurrences_le(v.drop_last(), t);
    }
}

/// Every tag with how many times it is given, most used first, then by
/// name.
pub fn all_tags(idx: &Index) -> (r: Vec<(String, usize)>)
    requires
        total_tags(idx@) <= usize::MAX,
    ensures
        is_tag_list(tag_list_view(r@), idx@),
{
    let notes = idx.notes();
    let ghost s = idx@;
    // counts, in order of first appearance
    let mut acc: Vec<(Vec<char>, usize)> = Vec::new();
    let mut i: usize = 0;
    assert(s.take(0) =~= Seq::<NoteMetaSpec>::empty());
    while i < notes.len()
        invariant
            0 <= i <= notes@.len(),
            s == metas_view(notes@),
            total_tags(s) <= usize::MAX,
            forall|a: int, b: int| 0 <= a < b < acc@.len() ==> (#[trigger] acc@[a]).0@ != (#[trigger] acc@[b]).0@,
            forall|a: int| 0 <= a < acc@.len() ==> (#[trigger] acc@[a]).1 == tag_count(s.take(i as int), acc@[a].0@) && acc@[a].1 > 0,
            forall|t: Seq<char>| tag_count(s.take(i as int), t) > 0 ==> exists|a: int| 0 <= a < acc@.len() && (#[trigger] acc@[a]).0@ == t,
        decreases notes.len() - i,
    {
        let m = &notes[i];
        assert(s[i as int] == m@);
        let ghost pre = s.take(i as int);
        assert(s.take(i + 1).drop_last() =~= pre);
        assert(s.take(i + 1).last() == m@);
        let mut j: usize = 0;
        assert(m@.tags.take(0) =~= Seq::<Seq<char>>::empty());
        while j < m.tags.len()
            invariant
                0 <= j <= m.tags@.len(),
                s == metas_view(notes@),
                i < notes@.len(),
                s[i as int] == m@,
                pre == s.take(i as int),
                total_tags(s) <= usize::MAX,
                forall|a: int, b: int| 0 <= a < b < acc@.len() ==> (#[trigger] acc@[a]).0@ != (#[trigger] acc@[b]).0@,
                forall|a: int| 0 <= a < acc@.len() ==> (#[trigger] acc@[a]).1 == tag_count(pre, acc@[a].0@) + occurrences(m@.tags.take(j as int), acc@[a].0@) && acc@[a].1 > 0,
                forall|t: Seq<char>| tag_count(pre, t) + occurrences(m@.tags.take(j as int), t) > 0 ==> exists|a: int| 0 <= a < acc@.len() && (#[trigger] acc@[a]).0@ == t,
            decreases m.tags.len() - j,
        {
            let t = chars_of(m.tags[j].as_str());
            assert(m@.tags[j as int] == t@);
            assert(m@.tags.take(j + 1).drop_last() =~= m@.tags.take(j as int));
            assert(m@.tags.take(j + 1).last() == t@);
            let mut k: usize = 0;
            while k < acc.len() && !chars_eq(&acc[k].0, &t)
                invariant
                    0 <= k <= acc@.len(),
                    forall|q: int| 0 <= q < k ==> acc@[q].0@ != t@,
                decreases acc.len() - k,
            {
                k += 1;
            }
            let ghost acc0 = acc@;
            proof {
                lemma_tag_count_le_total(s, t@);
                lemma_tag_count_prefix(s, i as int + 1, t@);
                lemma_occurrences_prefix(m@.tags, j as int + 1, t@);
                assert(s.take(i + 1).drop_last() =~= pre);
            }
            if k < acc.len() {
                let c = acc[k].1;
                let key = slice_chars(&t, 0, t.len());
                assert(key@ =~= t@);
                acc.set(k, (key, c + 1));
            } else {
                let key = slice_chars(&t, 0, t.len());
                assert(key@ =~= t@);
                acc.push((key, 1usize));
                proof {
                    if tag_count(pre, t@) + occurrences(m@.tags.take(j as int), t@) > 0 {
                        let a = choose|a: int| 0 <= a < acc0.len() && (#[trigger] acc0[a]).0@ == t@;
                        assert(acc0[a].0@ != t@);
                    }
                }
            }
            proof {
                assert forall|x: Seq<char>| tag_count(pre, x) + occurrences(m@.tags.take(j + 1), x) > 0 implies exists|a: int| 0 <= a < acc@.len() && (#[trigger] acc@[a]).0@ == x by {
                    if x == t@ {
                        assert(acc@[k as int].0@ == x);
                    } else {
                        assert(occurrences(m@.tags.take(j + 1), x) == occurrences(m@.tags.take(j as int), x));
                        let a = choose|a: int| 0 <= a < acc0.len() && (#[trigger] acc0[a]).0@ == x;
                        assert(acc@[a].0@ == x);
                    }
                }
                assert forall|a: int| 0 <= a < acc@.len() implies (#[trigger] acc@[a]).1 == tag_count(pre, acc@[a].0@) + occurrences(m@.tags.take(j + 1), acc@[a].0@) && acc@[a].1 > 0 by {
                    if a != k {
                        assert(acc@[a] == acc0[a]);
                        assert(acc0[a].0@ != t@);
                    }
                }
                assert forall|a: int, b: int| 0 <= a < b < acc@.len() implies (#[trigger] acc@[a]).0@ != (#[trigger] acc@[b]).0@ by {
                    if a != k && b != k {
                        assert(acc@[a] == acc0[a]);
                        assert(acc@[b] == acc0[b]);
                    } else if a == k {
                        if k < acc0.len() {
                            assert(acc0[k as int].0@ == t@);
                            assert(acc0[a].0@ != acc0[b].0@);
                        }
                    } else {
                        if k < acc0.len() {
                            assert(acc0[a].0@ != acc0[b].0@);
                        } else {
                            assert(acc0[a].0@ != t@);
                        }
                    }
                }
            }
            j += 1;
        }
        assert(m@.tags.take(m@.tags.len() as int) =~= m@.tags);
        assert forall|t: Seq<char>| #[trigger] tag_count(s.take(i + 1), t) > 0 implies exists|a: int| 0 <= a < acc@.len() && (#[trigger] acc@[a]).0@ == t by {
            assert(tag_count(s.take(i + 1), t) == tag_count(pre, t) + occurrences(m@.tags, t));
        }
        assert forall|a: int| 0 <= a < acc@.len() implies (#[trigger] acc@[a]).1 == tag_count(s.take(i + 1), acc@[a].0@) && acc@[a].1 > 0 by {
            assert(tag_count(s.take(i + 1), acc@[a].0@) == tag_count(pre, acc@[a].0@) + occurrences(m@.tags, acc@[a].0@));
        }
        i += 1;
    }
    assert(s.take(s.len() as int) =~= s);
    let r = sort_tags(&acc);
    proof {
        let rv = tag_list_view(r@);
        assert forall|x: int| 0 <= x < rv.len() implies (#[trigger] rv[x]).1 == tag_count(s, rv[x].0) && rv[x].1 > 0 by {
            assert(rv.contains(rv[x]));
            let a = choose|a: int| 0 <= a < acc@.len() && acc_view(acc@)[a] == rv[x];
            assert(acc_view(acc@)[a] == (acc@[a].0@, acc@[a].1 as nat));
        }
        assert forall|t: Seq<char>| tag_count(s, t) > 0 implies exists|x: int| 0 <= x < rv.len() && (#[trigger] rv[x]).0 == t by {
            let a = choose|a: int| 0 <= a < acc@.len() && (#[trigger] acc@[a]).0@ == t;
            assert(acc_view(acc@)[a] == (acc@[a].0@, acc@[a].1 as nat));
            assert(acc_view(acc@).contains(acc_view(acc@)[a]));
            let x = choose|x: int| 0 <= x < rv.len() && rv[x] == acc_view(acc@)[a];
            assert(rv[x].0 == t);
        }
    }
    r
}

proof fn lemma_tag_count_prefix(s: Seq<NoteMetaSpec>, n: int, t: Seq<char>)
    requires
        0 <= n <= s.len(),
    ensures
        tag_count(s.take(n), t) <= tag_count(s, t),
    decreases s.len() - n,
{
    if n < s.len() {
        lemma_tag_count_prefix(s, n + 1, t);
        assert(s.take(n + 1).drop_last() =~= s.take(n));
    } else {
        assert(s.take(n) =~= s);
    }
}

proof fn lemma_occurrences_prefix(v: Seq<Seq<char>>, n: int, t: Seq<char>)
    requires
        0 <= n <= v.len(),
    ensures
        occurrences(v.take(n), t) <= occurrences(v, t),
    decreases v.len() - n,
{
    if n < v.len() {
        lemma_occurrences_prefix(v, n + 1, t);
        assert(v.take(n + 1).drop_last() =~= v.take(n));
    } else {
        assert(v.take(n) =~= v);
    }
}

pub open spec fn acc_view(v: Seq<(Vec<char>, usize)>) -> Seq<(Seq<char>, nat)> {
    v.map_values(|e: (Vec<char>, usize)| (e.0@, e.1 as nat))
}

/// The tags of `acc` (each once) in `tag_before` order.
fn sort_tags(acc: &Vec<(Vec<char>, usize)>) -> (r: Vec<(String, usize)>)
    requires
        forall|a: int, b: int| 0 <= a < b < acc@.len() ==> (#[trigger] acc@[a]).0@ != (#[trigger] acc@[b]).0@,
    ensures
        forall|i: int, j: int| 0 <= i < j < r@.len() ==> tag_before(#[trigger] tag_list_view(r@)[i], #[trigger] tag_list_view(r@)[j]),
        forall|e: (Seq<char>, nat)| tag_list_view(r@).contains(e) <==> acc_view(acc@).contains(e),
{
    let ghost av = acc_view(acc@);
    let mut out: Vec<(String, usize)> = Vec::new();
    let mut i: usize = 0;
    while i < acc.len()
        invariant
            0 <= i <= acc@.len(),
            av == acc_view(acc@),
            forall|a: int, b: int| 0 <= a < b < acc@.len() ==> (#[trigger] acc@[a]).0@ != (#[trigger] acc@[b]).0@,
            forall|x: int, y: int| 0 <= x < y < out@.len() ==> tag_before(#[trigger] tag_list_view(out@)[x], #[trigger] tag_list_view(out@)[y]),
            forall|e: (Seq<char>, nat)| tag_list_view(out@).contains(e) <==> av.take(i as int).contains(e),
        decreases acc.len() - i,
    {
        let ghost ov = tag_list_view(out@);
        let ghost x = av[i as int];
        assert(x == (acc@[i as int].0@, acc@[i as int].1 as nat));
        let xk = &acc[i].0;
        let xc = acc[i].1;
        let mut p: usize = 0;
        while p < out.len() && !(xc > out[p].1 || (xc == out[p].1 && crate::text::chars_lt(xk, &chars_of(out[p].0.as_str()))))
            invariant
                0 <= p <= out@.len(),
                ov == tag_list_view(out@),
                x == (xk@, xc as nat),
                forall|q: int| 0 <= q < p ==> !tag_before(x, ov[q]),
            decreases out.len() - p,
        {
            p += 1;
        }
        proof {
            crate::text::lemma_take_one_more(av, i as int);
            // x's name is new
            assert forall|q: int| 0 <= q < ov.len() implies ov[q].0 != x.0 by {
                assert(ov.contains(ov[q]));
                assert(av.take(i as int).contains(ov[q]));
                let a = choose|a: int| 0 <= a < i && av.take(i as int)[a] == ov[q];
                assert(av[a] == (acc@[a].0@, acc@[a].1 as nat));
                assert(acc@[a].0@ != acc@[i as int].0@);
            }
        }
        out.insert(p, (string_of(xk), xc));
        proof {
            let nv = tag_list_view(out@);
            assert(nv =~= ov.insert(p as int, x));
            assert forall|a: int, b: int| 0 <= a < b < nv.len() implies tag_before(#[trigger] nv[a], #[trigger] nv[b]) by {
                if b == p {
                    assert(nv[a] == ov[a]);
                    assert(!tag_before(x, ov[a]));
                    lemma_tag_before_strict(ov[a], x, x);
                } else if a == p {
                    assert(nv[b] == ov[b - 1]);
                    if p < ov.len() {
                        assert(tag_before(x, ov[p as int]));
                        if b - 1 > p {
                            assert(tag_before(ov[p as int], ov[b - 1]));
                            lemma_tag_before_strict(x, ov[p as int], ov[b - 1]);
                        }
                    }
                } else {
                    let aa = if a < p { a } else { a - 1 };
                    let bb = if b < p { b } else { b - 1 };
                    assert(nv[a] == ov[aa]);
                    assert(nv[b] == ov[bb]);
                }
            }
            assert forall|e: (Seq<char>, nat)| nv.contains(e) <==> av.take(i + 1).contains(e) by {
                if nv.contains(e) {
                    let q = choose|q: int| 0 <= q < nv.len() && nv[q] == e;
                    if q < p {
                        assert(ov[q] == e);
                        assert(ov.contains(e));
                    } else if q > p {
                        assert(ov[q - 1] == e);
                        assert(ov.contains(e));
                    }
                }
                if av.take(i as int).contains(e) {
                    assert(ov.contains(e));
                    let q = choose|q: int| 0 <= q < ov.len() && ov[q] == e;
                    if q < p {
                        assert(nv[q] == e);
                    } else {
                        assert(nv[q + 1] == e);
                    }
                }
                if e == x {
                    assert(nv[p as int] == e);
                }
            }
        }
        i += 1;
    }
    assert(av.take(av.len() as int) =~= av);
    out
}
/// The backlinks of the document at `rel` (named `stem`, titled `title`)
/// are exactly the other documents, in index order, with a link to its
/// file name, its title, or its path without `.md`.
pub proof fn law_backlinks_are_the_documents_linking_here(
    s: Seq<NoteMetaSpec>,
    rel: Seq<char>,
    stem: Seq<char>,
    title: Seq<char>,
)
    ensures
        forall|k: int|
            0 <= k < s.len() && s[k].path != rel && (s[k].links.contains(stem) || s[k].links.contains(title)
                || s[k].links.contains(trim_end_str(rel, ".md"@))) ==> backlinks_spec(s, rel, stem, title).contains(
                #[trigger] s[k],
            ),
        forall|m: NoteMetaSpec|
            #[trigger] backlinks_spec(s, rel, stem, title).contains(m) ==> s.contains(m) && m.path != rel && (
            m.links.contains(stem) || m.links.contains(title) || m.links.contains(trim_end_str(rel, ".md"@))),
    decreases s.len(),
{
    if s.len() > 0 {
        let d = s.drop_last();
        law_backlinks_are_the_documents_linking_here(d, rel, stem, title);
        let b = backlinks_spec(s, rel, stem, title);
        let bd = backlinks_spec(d, rel, stem, title);
        let t = seq![stem, title, trim_end_str(rel, ".md"@)];
        assert(link_targets(rel, stem, title) == t);
        let x = s.last();
        assert forall|x2: Seq<char>| t.contains(x2) <==> (x2 == stem || x2 == title || x2 == trim_end_str(
            rel,
            ".md"@,
        )) by {
            if x2 == stem {
                assert(t[0] == x2);
            }
            if x2 == title {
                assert(t[1] == x2);
            }
            if x2 == trim_end_str(rel, ".md"@) {
                assert(t[2] == x2);
            }
        }
        assert forall|k: int|
            0 <= k < s.len() && s[k].path != rel && (s[k].links.contains(stem) || s[k].links.contains(title)
                || s[k].links.contains(trim_end_str(rel, ".md"@))) implies b.contains(#[trigger] s[k]) by {
            if k < d.len() {
                assert(s[k] == d[k]);
                let j = choose|j: int| 0 <= j < bd.len() && bd[j] == d[k];
                assert(b[j] == bd[j]);
            } else {
                assert(s[k] == x);
                let y = if x.links.contains(stem) {
                    stem
                } else if x.links.contains(title) {
                    title
                } else {
                    trim_end_str(rel, ".md"@)
                };
                let j = choose|j: int| 0 <= j < x.links.len() && x.links[j] == y;
                assert(t.contains(x.links[j]));
                assert(links_to(x, rel, t));
                assert(b[bd.len() as int] == x);
            }
        }
        assert forall|m: NoteMetaSpec| #[trigger] b.contains(m) implies s.contains(m) && m.path != rel && (
        m.links.contains(stem) || m.links.contains(title) || m.links.contains(trim_end_str(rel, ".md"@))) by {
            let j = choose|j: int| 0 <= j < b.len() && b[j] == m;
            if j < bd.len() {
                assert(b[j] == bd[j]);
                assert(bd.contains(m));
                let i = choose|i: int| 0 <= i < d.len() && d[i] == m;
                assert(s[i] == m);
            } else {
                assert(m == x);
                assert(s[s.len() - 1] == m);
                assert(links_to(x, rel, t));
                let i = choose|i: int| 0 <= i < x.links.len() && t.contains(#[trigger] x.links[i]);
                assert(x.links.contains(x.links[i]));
            }
        }
    }
}

} // verus!
