//! Full-text search over the vault: how well a document matches, the
//! snippet shown for it, and the order of the hits.

use vstd::prelude::*;
use crate::index::{copy_meta, metas_view, Index, NoteMeta, NoteMetaSpec};
use crate::text::{
    byte_len, byte_prefix, chars_of, contains_sub, find_sub, occurs_at, occurs_at_exec, push_all,
    replace_char, replace_char_exec, slice_chars, string_of, strs,
};
use crate::unicode::{lowercase, to_lowercase};

verus! {

/// How many times `q` occurs in `s` from `from` on, counting from the left
/// and never overlapping (what `str::matches(..).count()` gives).
pub open spec fn count_matches(s: Seq<char>, q: Seq<char>, from: int) -> nat
    decreases s.len() - from,
{
    if from < 0 || q.len() == 0 || from + q.len() > s.len() {
        0
    } else if occurs_at(s, q, from) {
        1 + count_matches(s, q, from + q.len())
    } else {
        count_matches(s, q, from + 1)
    }
}

/// Some tag, lower-cased, holds `q`.
pub open spec fn tags_hold(tags: Seq<Seq<char>>, q: Seq<char>) -> bool {
    exists|i: int| 0 <= i < tags.len() && contains_sub(lowercase(#[trigger] tags[i]), q)
}

/// How well a document matches the (lower-cased, trimmed) query `q`: 100
/// for the title, 60 for the file name, 40 for a tag, and for the body 10
/// plus one per match, at most 20 of them.
pub open spec fn score_spec(
    q: Seq<char>,
    title: Seq<char>,
    stem: Seq<char>,
    tags: Seq<Seq<char>>,
    body: Seq<char>,
) -> int {
    let n = count_matches(lowercase(body), q, 0);
    (if contains_sub(lowercase(title), q) { 100int } else { 0int })
        + (if contains_sub(lowercase(stem), q) { 60int } else { 0int })
        + (if tags_hold(tags, q) { 40int } else { 0int })
        + (if n > 0 { 10 + if n < 20 { n as int } else { 20int } } else { 0int })
}

fn count_matches_upto(s: &Vec<char>, q: &Vec<char>, cap: usize) -> (r: usize)
    requires
        q@.len() > 0,
    ensures
        r == if count_matches(s@, q@, 0) < cap { count_matches(s@, q@, 0) } else { cap as nat },
{
    let mut i: usize = 0;
    let mut n: usize = 0;
    while i <= s.len() && s.len() - i >= q.len() && n < cap
        invariant
            0 <= i <= s@.len(),
            q@.len() > 0,
            n < cap || n == cap,
            n + count_matches(s@, q@, i as int) == count_matches(s@, q@, 0),
        decreases s.len() - i,
    {
        if occurs_at_exec(s, q, i) {
            n += 1;
            i += q.len();
        } else {
            i += 1;
        }
    }
    n
}

/// How well a document matches the query `q` (lower-cased and trimmed).
pub fn search_score(q: &str, title: &str, stem: &str, tags: &Vec<String>, body: &str) -> (r: i32)
    requires
        q@.len() > 0,
    ensures
        r == score_spec(q@, title@, stem@, strs(tags@), body@),
{
    let qc = chars_of(q);
    let mut score: i32 = 0;
    if crate::text::contains_chars(&chars_of(to_lowercase(title).as_str()), &qc) {
        score += 100;
    }
    if crate::text::contains_chars(&chars_of(to_lowercase(stem).as_str()), &qc) {
        score += 60;
    }
    let mut i: usize = 0;
    let mut in_tags = false;
    while i < tags.len()
        invariant
            0 <= i <= tags@.len(),
            qc@ == q@,
            in_tags <==> exists|k: int| 0 <= k < i && contains_sub(lowercase(#[trigger] strs(tags@)[k]), q@),
        decreases tags.len() - i,
    {
        if crate::text::contains_chars(&chars_of(to_lowercase(tags[i].as_str()).as_str()), &qc) {
            assert(contains_sub(lowercase(strs(tags@)[i as int]), q@));
            in_tags = true;
        }
        i += 1;
    }
    if in_tags {
        score += 40;
    }
    let n = count_matches_upto(&chars_of(to_lowercase(body).as_str()), &qc, 20);
    if n > 0 {
        score += 10 + n as i32;
    }
    score
}

// ───────────────────────── the snippet ─────────────────────────

/// Where the snippet of `body` for `q` is centred, in characters: the first
/// match of `q` in the lower-cased body gives a byte position, and the
/// characters of `body` before that many of its bytes (or all of it) are
/// counted. `None` when `q` does not occur; `Some(None)` when that byte
/// position falls inside a character of `body` (where `&body[..b]` would
/// panic).
pub open spec fn snippet_centre(body: Seq<char>, q: Seq<char>) -> Option<Option<int>> {
    let low = lowercase(body);
    if !contains_sub(low, q) {
        None
    } else {
        let i = choose|i: int| occurs_at(low, q, i) && forall|j: int| 0 <= j < i ==> !occurs_at(low, q, j);
        let pos = byte_len(low.take(i)) as int;
        let n = if pos < byte_len(body) { pos } else { byte_len(body) as int };
        match byte_prefix(body, n) {
            Some(p) => Some(Some(p.len() as int)),
            None => Some(None),
        }
    }
}

/// The snippet: up to 30 characters before the match and 90 from it, line
/// breaks made spaces, with `…` where text was cut; the first 120
/// characters where `q` does not occur.
pub open spec fn snippet_spec(body: Seq<char>, c: Option<int>) -> Seq<char> {
    match c {
        None => body.take(if body.len() < 120 { body.len() as int } else { 120 }),
        Some(c) => {
            let start = if c >= 30 { c - 30 } else { 0 };
            let end = if c + 90 < body.len() { c + 90 } else { body.len() as int };
            let mid = replace_char(body.subrange(start, end), '\n', ' ');
            (if start > 0 { "…"@ + mid } else { mid }) + (if end < body.len() { "…"@ } else { ""@ })
        },
    }
}

/// The snippet of `body` around the first match of `q`.
pub fn make_snippet(body: &str, q: &str) -> (r: String)
    requires
        snippet_centre(body@, q@) != Some(None::<int>),
        byte_len(body@) < usize::MAX,
    ensures
        r@ == snippet_spec(
            body@,
            match snippet_centre(body@, q@) {
                Some(Some(c)) => Some(c),
                _ => None,
            },
        ),
{
    let bc = chars_of(body);
    let low = chars_of(to_lowercase(body).as_str());
    let qc = chars_of(q);
    match find_sub(&low, &qc) {
        None => {
            let n = if bc.len() < 120 { bc.len() } else { 120 };
            string_of(&slice_chars(&bc, 0, n))
        },
        Some(i) => {
            proof {
                let k = choose|k: int| occurs_at(low@, q@, k) && forall|j: int| 0 <= j < k ==> !occurs_at(low@, q@, j);
                if k < i {
                } else if k > i {
                }
                assert(k == i);
            }
            let blen = crate::text::byte_len_upto(&bc, usize::MAX);
            let pre = slice_chars(&low, 0, i);
            assert(pre@ =~= low@.take(i as int));
            let pos = crate::text::byte_len_upto(&pre, usize::MAX);
            let ghost posv = byte_len(low@.take(i as int));
            let n = if pos < blen { pos } else { blen };
            assert(n as int == (if posv < byte_len(bc@) { posv as int } else { byte_len(bc@) as int }));
            let c = match crate::text::chars_in_bytes(&bc, n) {
                Some(c) => {
                    proof {
                        crate::text::lemma_boundary_unique(bc@, n as int, c as int);
                    }
                    c
                },
                None => {
                    assert(false);
                    0
                },
            };
            let start = if c >= 30 { c - 30 } else { 0 };
            let end = if c < bc.len() && bc.len() - c > 90 { c + 90 } else { bc.len() };
            let mid = replace_char_exec(&slice_chars(&bc, start, end), '\n', ' ');
            let mut out: Vec<char> = Vec::new();
            if start > 0 {
                push_all(&mut out, &chars_of("…"));
            }
            push_all(&mut out, &mid);
            if end < bc.len() {
                push_all(&mut out, &chars_of("…"));
            } else {
                proof {
                    reveal_strlit("");
                }
            }
            string_of(&out)
        },
    }
}

/// The snippet of `body` for `q`, unless the first match falls inside a
/// character of `body` (where the snippet cannot be cut).
pub fn snippet(body: &str, q: &str) -> (r: Option<String>)
    requires
        byte_len(body@) < usize::MAX,
    ensures
        match r {
            Some(s) => snippet_centre(body@, q@) != Some(None::<int>) && s@ == snippet_spec(
                body@,
                match snippet_centre(body@, q@) {
                    Some(Some(c)) => Some(c),
                    _ => None,
                },
            ),
            None => snippet_centre(body@, q@) == Some(None::<int>),
        },
{
    let bc = chars_of(body);
    let low = chars_of(to_lowercase(body).as_str());
    let qc = chars_of(q);
    match find_sub(&low, &qc) {
        None => Some(make_snippet(body, q)),
        Some(i) => {
            proof {
                let k = choose|k: int| occurs_at(low@, q@, k) && forall|j: int| 0 <= j < k ==> !occurs_at(low@, q@, j);
                if k < i {
                } else if k > i {
                }
                assert(k == i);
            }
            let blen = crate::text::byte_len_upto(&bc, usize::MAX);
            let pre = slice_chars(&low, 0, i);
            assert(pre@ =~= low@.take(i as int));
            let pos = crate::text::byte_len_upto(&pre, usize::MAX);
            let n = if pos < blen { pos } else { blen };
            match crate::text::chars_in_bytes(&bc, n) {
                Some(c) => {
                    proof {
                        crate::text::lemma_boundary_unique(bc@, n as int, c as int);
                    }
                    Some(make_snippet(body, q))
                },
                None => None,
            }
        },
    }
}


// ───────────────────────── ordering ─────────────────────────

/// `ord` (positions into `keys`) with `j` placed after every position
/// whose key is at least `j`'s.
pub open spec fn insert_desc(keys: Seq<int>, ord: Seq<int>, j: int) -> Seq<int>
    decreases ord.len(),
{
    if ord.len() == 0 {
        seq![j]
    } else if keys[ord[0]] >= keys[j] {
        seq![ord[0]] + insert_desc(keys, ord.drop_first(), j)
    } else {
        seq![j] + ord
    }
}

/// The first `n` positions of `keys`, ordered by key from largest to
/// smallest, equal keys keeping their order (a stable sort).
pub open spec fn order_desc(keys: Seq<int>, n: int) -> Seq<int>
    decreases n,
{
    if n <= 0 {
        seq![]
    } else {
        insert_desc(keys, order_desc(keys, n - 1), n - 1)
    }
}

pub proof fn lemma_insert_desc(keys: Seq<int>, ord: Seq<int>, j: int, p: int)
    requires
        0 <= p <= ord.len(),
        forall|k: int| 0 <= k < p ==> keys[ord[k]] >= keys[j],
        p < ord.len() ==> keys[ord[p]] < keys[j],
    ensures
        insert_desc(keys, ord, j) == ord.insert(p, j),
    decreases ord.len(),
{
    if ord.len() == 0 {
        assert(ord.insert(p, j) =~= seq![j]);
    } else if p == 0 {
        assert(ord.insert(0, j) =~= seq![j] + ord);
    } else {
        lemma_insert_desc(keys, ord.drop_first(), j, p - 1);
        assert(ord.insert(p, j) =~= seq![ord[0]] + ord.drop_first().insert(p - 1, j));
    }
}

pub open spec fn wide(v: Seq<i128>) -> Seq<int> {
    v.map_values(|x: i128| x as int)
}

pub open spec fn positions(v: Seq<usize>) -> Seq<int> {
    v.map_values(|x: usize| x as int)
}

/// The positions of `keys`, largest key first, equal keys in their order.
pub fn stable_order_desc(keys: &Vec<i128>) -> (r: Vec<usize>)
    ensures
        positions(r@) == order_desc(wide(keys@), keys@.len() as int),
        forall|k: int| 0 <= k < r@.len() ==> r@[k] < keys@.len(),
{
    let ghost kv = wide(keys@);
    let mut ord: Vec<usize> = Vec::new();
    let mut j: usize = 0;
    assert(positions(ord@) =~= Seq::<int>::empty());
    while j < keys.len()
        invariant
            0 <= j <= keys@.len(),
            kv == wide(keys@),
            positions(ord@) == order_desc(kv, j as int),
            forall|k: int| 0 <= k < ord@.len() ==> ord@[k] < j,
        decreases keys.len() - j,
    {
        let x = keys[j];
        let mut p: usize = 0;
        while p < ord.len() && keys[ord[p]] >= x
            invariant
                0 <= p <= ord@.len(),
                j < keys@.len(),
                kv == wide(keys@),
                x == keys@[j as int],
                forall|k: int| 0 <= k < ord@.len() ==> ord@[k] < j,
                forall|k: int| 0 <= k < p ==> kv[positions(ord@)[k]] >= kv[j as int],
            decreases ord.len() - p,
        {
            p += 1;
        }
        proof {
            lemma_insert_desc(kv, positions(ord@), j as int, p as int);
        }
        let ghost before = positions(ord@);
        ord.insert(p, j);
        assert(positions(ord@) =~= before.insert(p as int, j as int));
        j += 1;
    }
    ord
}

/// A search hit: the document, its snippet and its score.
#[derive(Debug)]
pub struct SearchHit {
    pub meta: NoteMeta,
    pub snippet: String,
    pub score: i32,
}

pub open spec fn hit_view(h: SearchHit) -> (NoteMetaSpec, Seq<char>, int) {
    (h.meta@, h.snippet@, h.score as int)
}

pub open spec fn hits_view(v: Seq<SearchHit>) -> Seq<(NoteMetaSpec, Seq<char>, int)> {
    v.map_values(|h: SearchHit| hit_view(h))
}

pub open spec fn scores(v: Seq<(NoteMetaSpec, Seq<char>, int)>) -> Seq<int> {
    v.map_values(|h: (NoteMetaSpec, Seq<char>, int)| h.2)
}

/// `v` in the order of `ord`.
pub open spec fn pick<T>(v: Seq<T>, ord: Seq<int>) -> Seq<T> {
    ord.map_values(|i: int| v[i])
}

/// The hits, best first (equal scores keep their order), at most 80.
pub open spec fn rank_spec(v: Seq<(NoteMetaSpec, Seq<char>, int)>) -> Seq<(NoteMetaSpec, Seq<char>, int)> {
    let o = pick(v, order_desc(scores(v), v.len() as int));
    o.take(if o.len() < 80 { o.len() as int } else { 80 })
}

pub proof fn lemma_order_desc_len(keys: Seq<int>, n: int)
    requires
        0 <= n,
    ensures
        order_desc(keys, n).len() == n,
    decreases n,
{
    if n > 0 {
        lemma_order_desc_len(keys, n - 1);
        lemma_insert_desc_len(keys, order_desc(keys, n - 1), n - 1);
    }
}

pub proof fn lemma_insert_desc_len(keys: Seq<int>, ord: Seq<int>, j: int)
    ensures
        insert_desc(keys, ord, j).len() == ord.len() + 1,
    decreases ord.len(),
{
    if ord.len() > 0 {
        lemma_insert_desc_len(keys, ord.drop_first(), j);
    }
}

/// The hits, best first (equal scores keep their order), at most 80.
pub fn rank_hits(hits: Vec<SearchHit>) -> (r: Vec<SearchHit>)
    ensures
        hits_view(r@) == rank_spec(hits_view(hits@)),
{
    let ghost hv = hits_view(hits@);
    let mut keys: Vec<i128> = Vec::new();
    let mut i: usize = 0;
    while i < hits.len()
        invariant
            0 <= i <= hits@.len(),
            hv == hits_view(hits@),
            wide(keys@) == scores(hv).take(i as int),
        decreases hits.len() - i,
    {
        let ghost before = wide(keys@);
        keys.push(hits[i].score as i128);
        assert(wide(keys@) =~= before.push(hv[i as int].2));
        assert(scores(hv).take(i + 1) =~= scores(hv).take(i as int).push(hv[i as int].2));
        i += 1;
    }
    assert(scores(hv).take(hv.len() as int) =~= scores(hv));
    let ord = stable_order_desc(&keys);
    proof {
        lemma_order_desc_len(scores(hv), hv.len() as int);
    }
    let ghost o = pick(hv, positions(ord@));
    let mut out: Vec<SearchHit> = Vec::new();
    let mut k: usize = 0;
    let limit = if ord.len() < 80 { ord.len() } else { 80 };
    while k < limit
        invariant
            0 <= k <= limit,
            limit <= ord@.len(),
            ord@.len() == hits@.len(),
            hv == hits_view(hits@),
            forall|q: int| 0 <= q < ord@.len() ==> ord@[q] < hits@.len(),
            o == pick(hv, positions(ord@)),
            hits_view(out@) == o.take(k as int),
        decreases limit - k,
    {
        let h = &hits[ord[k]];
        let c = SearchHit { meta: copy_meta(&h.meta), snippet: h.snippet.clone(), score: h.score };
        let ghost before = hits_view(out@);
        out.push(c);
        assert(hits_view(out@) =~= before.push(hv[ord@[k as int] as int]));
        assert(o.take(k + 1) =~= o.take(k as int).push(o[k as int]));
        k += 1;
    }
    out
}

/// The documents of the index, most recently changed first (equal times
/// keep the index's order).
pub open spec fn by_mtime_spec(s: Seq<NoteMetaSpec>) -> Seq<NoteMetaSpec> {
    pick(s, order_desc(s.map_values(|m: NoteMetaSpec| m.mtime as int), s.len() as int))
}

/// The documents of the index, most recently changed first.
pub fn notes_by_mtime(idx: &Index) -> (r: Vec<NoteMeta>)
    ensures
        metas_view(r@) == by_mtime_spec(idx@),
{
    let notes = idx.notes();
    let ghost s = idx@;
    let ghost ks = s.map_values(|m: NoteMetaSpec| m.mtime as int);
    let mut keys: Vec<i128> = Vec::new();
    let mut i: usize = 0;
    while i < notes.len()
        invariant
            0 <= i <= notes@.len(),
            s == metas_view(notes@),
            ks == s.map_values(|m: NoteMetaSpec| m.mtime as int),
            wide(keys@) == ks.take(i as int),
        decreases notes.len() - i,
    {
        let ghost before = wide(keys@);
        keys.push(notes[i].mtime as i128);
        assert(s[i as int] == notes@[i as int]@);
        assert(wide(keys@) =~= before.push(ks[i as int]));
        assert(ks.take(i + 1) =~= ks.take(i as int).push(ks[i as int]));
        i += 1;
    }
    assert(ks.take(ks.len() as int) =~= ks);
    let ord = stable_order_desc(&keys);
    proof {
        lemma_order_desc_len(ks, s.len() as int);
    }
    let ghost o = pick(s, positions(ord@));
    let mut out: Vec<NoteMeta> = Vec::new();
    let mut k: usize = 0;
    while k < ord.len()
        invariant
            0 <= k <= ord@.len(),
            ord@.len() == notes@.len(),
            s == metas_view(notes@),
            forall|q: int| 0 <= q < ord@.len() ==> ord@[q] < notes@.len(),
            o == pick(s, positions(ord@)),
            metas_view(out@) == o.take(k as int),
        decreases ord.len() - k,
    {
        let ghost before = metas_view(out@);
        out.push(copy_meta(&notes[ord[k]]));
        assert(metas_view(out@) =~= before.push(s[ord@[k as int] as int]));
        assert(o.take(k + 1) =~= o.take(k as int).push(o[k as int]));
        k += 1;
    }
    assert(o.take(o.len() as int) =~= o);
    out
}

/// The hit for a document with text `raw`, if it matches `q` at all; `None`
/// inside when its snippet cannot be cut.
#[verifier::opaque]
pub open spec fn hit_of(q: Seq<char>, m: NoteMetaSpec, raw: Seq<char>) -> Option<Option<(NoteMetaSpec, Seq<char>, int)>> {
    let body = crate::note::split_fm_spec(raw).1;
    let score = score_spec(q, m.title, m.stem, m.tags, body);
    if score == 0 {
        None
    } else {
        match snippet_centre(body, q) {
            Some(None) => Some(None),
            c => Some(Some((m, snippet_spec(body, match c {
                Some(Some(x)) => Some(x),
                _ => None,
            }), score))),
        }
    }
}

/// The hits for `q` among documents `ms` with texts `raws` (a document
/// whose text could not be read is skipped), in their order; `None` when
/// a snippet cannot be cut.
pub open spec fn hits_of(q: Seq<char>, ms: Seq<NoteMetaSpec>, raws: Seq<Option<Seq<char>>>) -> Option<Seq<(NoteMetaSpec, Seq<char>, int)>>
    decreases ms.len(),
{
    if ms.len() == 0 || raws.len() == 0 {
        Some(seq![])
    } else {
        match hits_of(q, ms.drop_last(), raws.drop_last()) {
            None => None,
            Some(acc) => match raws.last() {
                None => Some(acc),
                Some(raw) => match hit_of(q, ms.last(), raw) {
                    None => Some(acc),
                    Some(None) => None,
                    Some(Some(h)) => Some(acc.push(h)),
                },
            },
        }
    }
}

/// What a search for `query` finds: the query trimmed and lower-cased;
/// nothing for an empty one; else the hits, ranked.
pub open spec fn search_spec(query: Seq<char>, ms: Seq<NoteMetaSpec>, raws: Seq<Option<Seq<char>>>) -> Option<Seq<(NoteMetaSpec, Seq<char>, int)>> {
    let q = lowercase(crate::text::trim(query));
    if q.len() == 0 {
        Some(seq![])
    } else {
        match hits_of(q, ms, raws) {
            Some(h) => Some(rank_spec(h)),
            None => None,
        }
    }
}

fn hit_for(q: &str, m: &NoteMeta, raw: &str) -> (r: Option<Option<SearchHit>>)
    requires
        q@.len() > 0,
        byte_len(crate::note::split_fm_spec(raw@).1) < usize::MAX,
    ensures
        match r {
            None => hit_of(q@, m@, raw@) is None,
            Some(None) => hit_of(q@, m@, raw@) == Some(None::<(NoteMetaSpec, Seq<char>, int)>),
            Some(Some(h)) => hit_of(q@, m@, raw@) == Some(Some(hit_view(h))),
        },
{
    reveal(hit_of);
    let (_, body) = crate::note::split_frontmatter(raw);
    let score = search_score(q, m.title.as_str(), m.stem.as_str(), &m.tags, body.as_str());
    if score == 0 {
        return None;
    }
    match snippet(body.as_str(), q) {
        None => Some(None),
        Some(sn) => Some(Some(SearchHit { meta: copy_meta(m), snippet: sn, score })),
    }
}

/// Searches the documents `notes` (most recent first), whose texts are
/// `raws` (`None` where a text could not be read); `None` when a snippet
/// cannot be cut (where a match falls inside a character).
pub fn search_notes(query: &str, notes: &Vec<NoteMeta>, raws: &Vec<Option<String>>) -> (r: Option<Vec<SearchHit>>)
    requires
        raws@.len() == notes@.len(),
        forall|i: int| 0 <= i < raws@.len() && raws@[i] is Some ==> byte_len(crate::note::split_fm_spec(raws@[i]->Some_0@).1) < usize::MAX,
    ensures
        match r {
            Some(v) => search_spec(query@, metas_view(notes@), crate::ai::opt_texts(raws@)) == Some(hits_view(v@)),
            None => search_spec(query@, metas_view(notes@), crate::ai::opt_texts(raws@)) is None,
        },
{
    let q = to_lowercase(string_of(&crate::text::trim_exec(&chars_of(query))).as_str());
    if chars_of(q.as_str()).len() == 0 {
        let v: Vec<SearchHit> = Vec::new();
        assert(hits_view(v@) =~= Seq::<(NoteMetaSpec, Seq<char>, int)>::empty());
        return Some(v);
    }
    let ghost ms = metas_view(notes@);
    let ghost rs = crate::ai::opt_texts(raws@);
    let mut hits: Vec<SearchHit> = Vec::new();
    let mut i: usize = 0;
    assert(ms.take(0) =~= Seq::<NoteMetaSpec>::empty());
    assert(rs.take(0) =~= Seq::<Option<Seq<char>>>::empty());
    while i < notes.len()
        invariant
            0 <= i <= notes@.len(),
            raws@.len() == notes@.len(),
            q@.len() > 0,
            q@ == lowercase(crate::text::trim(query@)),
            ms == metas_view(notes@),
            rs == crate::ai::opt_texts(raws@),
            forall|k: int| 0 <= k < raws@.len() && raws@[k] is Some ==> byte_len(crate::note::split_fm_spec(raws@[k]->Some_0@).1) < usize::MAX,
            hits_of(q@, ms.take(i as int), rs.take(i as int)) == Some(hits_view(hits@)),
        decreases notes.len() - i,
    {
        assert(ms.take(i + 1).drop_last() =~= ms.take(i as int));
        assert(rs.take(i + 1).drop_last() =~= rs.take(i as int));
        assert(ms.take(i + 1).last() == notes@[i as int]@);
        assert(rs.take(i + 1).last() == crate::ai::opt_texts(raws@)[i as int]);
        match &raws[i] {
            None => {},
            Some(raw) => {
                match hit_for(q.as_str(), &notes[i], raw.as_str()) {
                    None => {},
                    Some(None) => {
                        proof {
                            lemma_hits_none(q@, ms, rs, i as int + 1);
                        }
                        return None;
                    },
                    Some(Some(h)) => {
                        let ghost before = hits_view(hits@);
                        hits.push(h);
                        assert(hits_view(hits@) =~= before.push(hits_view(hits@).last()));
                    },
                }
            },
        }
        i += 1;
    }
    assert(ms.take(ms.len() as int) =~= ms);
    assert(rs.take(rs.len() as int) =~= rs);
    Some(rank_hits(hits))
}

proof fn lemma_hits_none(q: Seq<char>, ms: Seq<NoteMetaSpec>, rs: Seq<Option<Seq<char>>>, n: int)
    requires
        0 < n <= ms.len(),
        ms.len() == rs.len(),
        hits_of(q, ms.take(n), rs.take(n)) is None,
    ensures
        hits_of(q, ms, rs) is None,
    decreases ms.len() - n,
{
    if n < ms.len() {
        assert(ms.take(n + 1).drop_last() =~= ms.take(n));
        assert(rs.take(n + 1).drop_last() =~= rs.take(n));
        lemma_hits_none(q, ms, rs, n + 1);
    } else {
        assert(ms.take(n) =~= ms);
        assert(rs.take(n) =~= rs);
    }
}

// ───────────────────────── laws ─────────────────────────

pub open spec fn desc_by(keys: Seq<int>, ord: Seq<int>) -> bool {
    forall|a: int, b: int| 0 <= a < b < ord.len() ==> keys[#[trigger] ord[a]] >= keys[#[trigger] ord[b]]
}

proof fn lemma_insert_desc_members(keys: Seq<int>, ord: Seq<int>, j: int)
    ensures
        forall|k: int|
            0 <= k < insert_desc(keys, ord, j).len() ==> #[trigger] insert_desc(keys, ord, j)[k] == j
                || ord.contains(insert_desc(keys, ord, j)[k]),
    decreases ord.len(),
{
    lemma_insert_desc_len(keys, ord, j);
    if ord.len() > 0 {
        lemma_insert_desc_members(keys, ord.drop_first(), j);
        let r = insert_desc(keys, ord, j);
        if keys[ord[0]] >= keys[j] {
            let t = insert_desc(keys, ord.drop_first(), j);
            assert forall|k: int| 0 <= k < r.len() implies #[trigger] r[k] == j || ord.contains(r[k]) by {
                if k == 0 {
                    assert(ord[0] == r[0]);
                } else {
                    assert(r[k] == t[k - 1]);
                    if t[k - 1] != j {
                        let q = choose|q: int| 0 <= q < ord.drop_first().len() && ord.drop_first()[q] == t[k - 1];
                        assert(ord[q + 1] == t[k - 1]);
                    }
                }
            }
        } else {
            assert forall|k: int| 0 <= k < r.len() implies #[trigger] r[k] == j || ord.contains(r[k]) by {
                if k > 0 {
                    assert(r[k] == ord[k - 1]);
                }
            }
        }
    }
}

proof fn lemma_insert_desc_sorted(keys: Seq<int>, ord: Seq<int>, j: int)
    requires
        desc_by(keys, ord),
    ensures
        desc_by(keys, insert_desc(keys, ord, j)),
    decreases ord.len(),
{
    let r = insert_desc(keys, ord, j);
    lemma_insert_desc_len(keys, ord, j);
    if ord.len() == 0 {
    } else if keys[ord[0]] >= keys[j] {
        let rest = ord.drop_first();
        assert(desc_by(keys, rest)) by {
            assert forall|a: int, b: int| 0 <= a < b < rest.len() implies keys[#[trigger] rest[a]] >= keys[#[trigger] rest[b]] by {
                assert(rest[a] == ord[a + 1] && rest[b] == ord[b + 1]);
            }
        }
        lemma_insert_desc_sorted(keys, rest, j);
        lemma_insert_desc_members(keys, rest, j);
        let t = insert_desc(keys, rest, j);
        assert forall|a: int, b: int| 0 <= a < b < r.len() implies keys[#[trigger] r[a]] >= keys[#[trigger] r[b]] by {
            assert(r[b] == t[b - 1]);
            if a == 0 {
                assert(r[0] == ord[0]);
                if t[b - 1] != j {
                    let q = choose|q: int| 0 <= q < rest.len() && rest[q] == t[b - 1];
                    assert(ord[q + 1] == t[b - 1]);
                    assert(keys[ord[0]] >= keys[ord[q + 1]]);
                }
            } else {
                assert(r[a] == t[a - 1]);
            }
        }
    } else {
        assert forall|a: int, b: int| 0 <= a < b < r.len() implies keys[#[trigger] r[a]] >= keys[#[trigger] r[b]] by {
            assert(r[b] == ord[b - 1]);
            if a == 0 {
                assert(keys[ord[0]] >= keys[ord[b - 1]] || b - 1 == 0);
            } else {
                assert(r[a] == ord[a - 1]);
            }
        }
    }
}

proof fn lemma_order_desc_sorted(keys: Seq<int>, n: int)
    requires
        0 <= n,
    ensures
        desc_by(keys, order_desc(keys, n)),
        forall|k: int| 0 <= k < order_desc(keys, n).len() ==> 0 <= #[trigger] order_desc(keys, n)[k] < n,
    decreases n,
{
    if n > 0 {
        lemma_order_desc_sorted(keys, n - 1);
        lemma_insert_desc_sorted(keys, order_desc(keys, n - 1), n - 1);
        lemma_insert_desc_members(keys, order_desc(keys, n - 1), n - 1);
        let o = order_desc(keys, n);
        let prev = order_desc(keys, n - 1);
        assert forall|k: int| 0 <= k < o.len() implies 0 <= #[trigger] o[k] < n by {
            if o[k] != n - 1 {
                let q = choose|q: int| 0 <= q < prev.len() && prev[q] == o[k];
            }
        }
    }
}

/// Search results come best first: along the list the scores never rise;
/// and there are at most 80 of them.
pub proof fn law_results_best_first(v: Seq<(NoteMetaSpec, Seq<char>, int)>)
    ensures
        rank_spec(v).len() <= 80,
        forall|a: int, b: int| 0 <= a < b < rank_spec(v).len() ==> (#[trigger] rank_spec(v)[a]).2 >= (
        #[trigger] rank_spec(v)[b]).2,
{
    let keys = scores(v);
    let o = order_desc(keys, v.len() as int);
    lemma_order_desc_sorted(keys, v.len() as int);
    lemma_order_desc_len(keys, v.len() as int);
    let r = rank_spec(v);
    assert forall|a: int, b: int| 0 <= a < b < r.len() implies (#[trigger] r[a]).2 >= (#[trigger] r[b]).2 by {
        assert(r[a] == v[o[a]]);
        assert(r[b] == v[o[b]]);
        assert(keys[o[a]] == v[o[a]].2);
        assert(keys[o[b]] == v[o[b]].2);
    }
}
/// A title that holds the query anywhere, once lower-cased, gives the
/// document at least the 100 title points: such a document is always a
/// hit, whatever else matches.
pub proof fn law_title_match_scores(
    q: Seq<char>,
    title: Seq<char>,
    stem: Seq<char>,
    tags: Seq<Seq<char>>,
    body: Seq<char>,
    i: int,
)
    requires
        occurs_at(lowercase(title), q, i),
    ensures
        score_spec(q, title, stem, tags, body) >= 100,
{
    assert(contains_sub(lowercase(title), q));
}

} // verus!
