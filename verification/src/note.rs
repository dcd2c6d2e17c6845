//! Markdown documents: frontmatter, tags, links, word counts, titles, and
//! the in-memory index built from them. The files are the only truth; the
//! index is a cache of what they say.

use vstd::prelude::*;
use crate::text::{strs, to_strings, to_char_vecs, 
    ascii_lower_seq, ascii_lower_exec, chars_eq, chars_of, contains_char, ends_with,
    find_char_from, insert_sorted, is_prefix, is_suffix, is_ws, is_ws_char, keys_of, keys_view,
    lines, lines_exec, occurs_at, occurs_at_exec, push_all, seq_lt, slice_chars, split_char,
    split_char_exec, starts_with, string_of, strictly_sorted, trim, trim_end_chars,
    trim_end_chars_exec, trim_exec, trim_start, trim_start_chars, trim_start_chars_exec,
    trim_start_exec, words, words_exec,
};
use crate::unicode::{
    is_alnum_spec, is_alphanumeric_char, is_ascii_digit, is_ascii_letter, is_letter_or_number,
    is_word_char, letter_or_number, word_char,
};

verus! {

// ───────────────────────── titles ─────────────────────────

/// Characters a title loses: those no file name may hold, and line breaks.
pub open spec fn title_forbidden(c: char) -> bool {
    c == '<' || c == '>' || c == ':' || c == '"' || c == '/' || c == '\\' || c == '|' || c == '?'
        || c == '*' || c == '\n' || c == '\r' || c == '\t'
}

/// A title made safe as a file name: trimmed, forbidden characters
/// dropped, trimmed again, trailing dots dropped, at most 120 characters.
pub open spec fn sanitize_title_spec(s: Seq<char>) -> Seq<char> {
    let a = trim(trim(s).filter(|c: char| !title_forbidden(c)));
    let b = trim_end_chars(a, seq!['.']);
    b.take(if b.len() < 120 { b.len() as int } else { 120 })
}

pub fn sanitize_title(s: &str) -> (r: String)
    ensures
        r@ == sanitize_title_spec(s@),
{
    let t = trim_exec(&chars_of(s));
    let mut f: Vec<char> = Vec::new();
    let mut i: usize = 0;
    while i < t.len()
        invariant
            0 <= i <= t@.len(),
            f@ == t@.take(i as int).filter(|c: char| !title_forbidden(c)),
        decreases t.len() - i,
    {
        proof {
            assert(t@.take(i + 1).drop_last() =~= t@.take(i as int));
            reveal(Seq::filter);
        }
        let c = t[i];
        if !(c == '<' || c == '>' || c == ':' || c == '"' || c == '/' || c == '\\' || c == '|' || c
            == '?' || c == '*' || c == '\n' || c == '\r' || c == '\t') {
            f.push(c);
        }
        i += 1;
    }
    assert(t@.take(t@.len() as int) =~= t@);
    let a = trim_exec(&f);
    let dot = vec!['.'];
    assert(dot@ =~= seq!['.']);
    let b = trim_end_chars_exec(&a, &dot);
    let n = if b.len() < 120 { b.len() } else { 120 };
    let c = slice_chars(&b, 0, n);
    assert(c@ =~= b@.take(n as int));
    string_of(&c)
}

// ───────────────────────── word count ─────────────────────────

/// Kana, CJK ideographs (with extension A and compatibility), Hangul: each
/// such character counts as a word.
pub open spec fn is_cjk(c: char) -> bool {
    let u = c as u32;
    (0x3040 <= u <= 0x30FF) || (0x3400 <= u <= 0x4DBF) || (0x4E00 <= u <= 0x9FFF) || (0xF900 <= u
        <= 0xFAFF) || (0xAC00 <= u <= 0xD7AF)
}

pub open spec fn cjk_count(s: Seq<char>) -> nat {
    s.filter(|c: char| is_cjk(c)).len()
}

/// `s` with every CJK character turned into a space.
pub open spec fn latin_part(s: Seq<char>) -> Seq<char> {
    s.map_values(|c: char| if is_cjk(c) { ' ' } else { c })
}

pub open spec fn has_alphanumeric(w: Seq<char>) -> bool {
    exists|i: int| 0 <= i < w.len() && is_alnum_spec(#[trigger] w[i])
}

/// A rough word count for mixed Chinese and Latin text: each CJK character
/// is a word; elsewhere, each whitespace-separated run that holds a letter
/// or a digit is.
pub open spec fn count_words_spec(s: Seq<char>) -> nat {
    cjk_count(s) + words(latin_part(s)).filter(|w: Seq<char>| has_alphanumeric(w)).len()
}

fn has_alphanumeric_exec(w: &[char]) -> (r: bool)
    ensures
        r == has_alphanumeric(w@),
{
    let mut i: usize = 0;
    while i < w.len()
        invariant
            0 <= i <= w@.len(),
            forall|k: int| 0 <= k < i ==> !is_alnum_spec(#[trigger] w@[k]),
        decreases w.len() - i,
    {
        if is_alphanumeric_char(w[i]) {
            return true;
        }
        i += 1;
    }
    false
}

pub fn count_words(text: &str) -> (n: usize)
    requires
        text@.len() <= usize::MAX / 2,
    ensures
        n == count_words_spec(text@),
{
    let s = chars_of(text);
    let mut cjk: usize = 0;
    let mut latin: Vec<char> = Vec::new();
    let mut i: usize = 0;
    while i < s.len()
        invariant
            0 <= i <= s@.len(),
            cjk == cjk_count(s@.take(i as int)),
            cjk <= i,
            latin@ == latin_part(s@.take(i as int)),
        decreases s.len() - i,
    {
        proof {
            assert(s@.take(i + 1).drop_last() =~= s@.take(i as int));
            reveal(Seq::filter);
            assert(latin_part(s@.take(i + 1)) =~= latin_part(s@.take(i as int)).push(
                if is_cjk(s@[i as int]) { ' ' } else { s@[i as int] },
            ));
        }
        let u = s[i] as u32;
        if (0x3040 <= u && u <= 0x30FF) || (0x3400 <= u && u <= 0x4DBF) || (0x4E00 <= u && u
            <= 0x9FFF) || (0xF900 <= u && u <= 0xFAFF) || (0xAC00 <= u && u <= 0xD7AF) {
            cjk += 1;
            latin.push(' ');
        } else {
            latin.push(s[i]);
        }
        i += 1;
    }
    assert(s@.take(s@.len() as int) =~= s@);
    let ws = words_exec(&latin);
    let ghost wv = words(latin@);
    let mut lw: usize = 0;
    let mut k: usize = 0;
    while k < ws.len()
        invariant
            0 <= k <= ws@.len(),
            keys_of(ws@) == wv,
            lw == wv.take(k as int).filter(|w: Seq<char>| has_alphanumeric(w)).len(),
            lw <= k,
            ws@.len() == wv.len(),
            cjk <= s@.len(),
            latin@.len() == s@.len(),
            s@.len() <= usize::MAX / 2,
        decreases ws.len() - k,
    {
        proof {
            assert(wv.take(k + 1).drop_last() =~= wv.take(k as int));
            reveal(Seq::filter);
            assert(wv[k as int] == ws@[k as int]@);
        }
        if has_alphanumeric_exec(&ws[k]) {
            lw += 1;
        }
        k += 1;
    }
    assert(wv.take(wv.len() as int) =~= wv);
    assert(cjk as nat + lw as nat == count_words_spec(text@));
    proof {
        crate::text::lemma_words_len(latin@);
    }
    cjk + lw
}


// ───────────────────────── links ─────────────────────────

/// End of the run of characters other than `[` and `]` from `from` on.
pub open spec fn plain_run(s: Seq<char>, from: int) -> int
    decreases s.len() - from,
{
    if 0 <= from < s.len() && s[from] != '[' && s[from] != ']' {
        plain_run(s, from + 1)
    } else {
        from
    }
}

pub proof fn lemma_plain_run(s: Seq<char>, from: int)
    requires
        0 <= from,
    ensures
        from <= plain_run(s, from),
        from <= s.len() ==> plain_run(s, from) <= s.len(),
    decreases s.len() - from,
{
    if 0 <= from < s.len() && s[from] != '[' && s[from] != ']' {
        lemma_plain_run(s, from + 1);
    }
}

/// `[[inner]]` at `q`, `inner` of 1 to 200 characters none of which is a
/// bracket. Gives where it ends and `inner`.
pub open spec fn brackets_at(s: Seq<char>, q: int) -> Option<(int, Seq<char>)> {
    if 0 <= q && q + 1 < s.len() && s[q] == '[' && s[q + 1] == '[' {
        let k = plain_run(s, q + 2);
        if 1 <= k - (q + 2) <= 200 && k + 1 < s.len() && s[k] == ']' && s[k + 1] == ']' {
            Some((k + 2, s.subrange(q + 2, k)))
        } else {
            None
        }
    } else {
        None
    }
}

/// A wiki link at `p`: `[[…]]`, or `![[…]]` (an embed). Gives its end,
/// whether it embeds, and its inner text.
pub open spec fn link_at(s: Seq<char>, p: int) -> Option<(int, bool, Seq<char>)> {
    if 0 <= p < s.len() && s[p] == '!' && brackets_at(s, p + 1) is Some {
        let (e, inner) = brackets_at(s, p + 1)->Some_0;
        Some((e, true, inner))
    } else {
        match brackets_at(s, p) {
            Some((e, inner)) => Some((e, false, inner)),
            None => None,
        }
    }
}

pub open spec fn image_exts() -> Seq<Seq<char>> {
    seq![".png"@, ".jpg"@, ".jpeg"@, ".gif"@, ".webp"@, ".bmp"@, ".svg"@, ".avif"@, ".pdf"@]
}

pub open spec fn is_media(target: Seq<char>) -> bool {
    exists|i: int| 0 <= i < image_exts().len() && is_suffix(image_exts()[i], ascii_lower_seq(target))
}

/// The target a link names: what precedes `|`, trimmed; an embedded image
/// or PDF is no link.
pub open spec fn link_target(embed: bool, inner: Seq<char>) -> Seq<Seq<char>> {
    let target = trim(split_char(inner, '|')[0]);
    if target.len() == 0 {
        seq![]
    } else if embed && is_media(target) {
        seq![]
    } else {
        seq![target]
    }
}

/// The link targets from `p` on, scanning left to right.
pub open spec fn links_from(s: Seq<char>, p: int) -> Seq<Seq<char>>
    decreases s.len() - p,
{
    if p < 0 || p >= s.len() {
        seq![]
    } else {
        match link_at(s, p) {
            Some((e, embed, inner)) => if e > p {
                link_target(embed, inner) + links_from(s, e)
            } else {
                seq![]
            },
            None => links_from(s, p + 1),
        }
    }
}

/// The distinct elements of `v`, in `seq_lt` order: what a sort followed
/// by a dedup gives.
pub open spec fn sorted_set_of(r: Seq<Seq<char>>, v: Seq<Seq<char>>) -> bool {
    strictly_sorted(r) && forall|x: Seq<char>| #[trigger] r.contains(x) <==> v.contains(x)
}

fn plain_run_exec(s: &[char], from: usize) -> (r: usize)
    requires
        from <= s.len(),
    ensures
        r as int == plain_run(s@, from as int),
        from <= r <= s.len(),
{
    proof {
        lemma_plain_run(s@, from as int);
    }
    let mut i = from;
    while i < s.len() && s[i] != '[' && s[i] != ']'
        invariant
            from <= i <= s.len(),
            plain_run(s@, from as int) == plain_run(s@, i as int),
        decreases s.len() - i,
    {
        i += 1;
    }
    i
}

fn brackets_at_exec(s: &[char], q: usize) -> (r: Option<(usize, Vec<char>)>)
    ensures
        match r {
            Some((e, inner)) => brackets_at(s@, q as int) == Some((e as int, inner@)),
            None => brackets_at(s@, q as int) is None,
        },
{
    if q < s.len() && s.len() - q > 1 && s[q] == '[' && s[q + 1] == '[' {
        let k = plain_run_exec(s, q + 2);
        let n = k - (q + 2);
        if 1 <= n && n <= 200 && k < s.len() && s.len() - k > 1 && s[k] == ']' && s[k + 1] == ']' {
            let inner = slice_chars(s, q + 2, k);
            Some((k + 2, inner))
        } else {
            None
        }
    } else {
        None
    }
}

fn link_at_exec(s: &[char], p: usize) -> (r: Option<(usize, bool, Vec<char>)>)
    ensures
        match r {
            Some((e, embed, inner)) => link_at(s@, p as int) == Some((e as int, embed, inner@)),
            None => link_at(s@, p as int) is None,
        },
{
    if p < s.len() && s[p] == '!' {
        match brackets_at_exec(s, p + 1) {
            Some((e, inner)) => {
                return Some((e, true, inner));
            },
            None => {},
        }
    }
    match brackets_at_exec(s, p) {
        Some((e, inner)) => Some((e, false, inner)),
        None => None,
    }
}

fn is_media_exec(target: &[char]) -> (r: bool)
    ensures
        r == is_media(target@),
{
    let low = ascii_lower_exec(target);
    let exts = [
        chars_of(".png"),
        chars_of(".jpg"),
        chars_of(".jpeg"),
        chars_of(".gif"),
        chars_of(".webp"),
        chars_of(".bmp"),
        chars_of(".svg"),
        chars_of(".avif"),
        chars_of(".pdf"),
    ];
    assert(keys_of(exts@) =~= image_exts());
    let mut i: usize = 0;
    while i < 9
        invariant
            0 <= i <= 9,
            exts@.len() == 9,
            keys_of(exts@) == image_exts(),
            low@ == ascii_lower_seq(target@),
            forall|k: int| 0 <= k < i ==> !is_suffix(#[trigger] image_exts()[k], low@),
        decreases 9 - i,
    {
        assert(image_exts()[i as int] == exts@[i as int]@);
        if ends_with(&low, &exts[i]) {
            return true;
        }
        i += 1;
    }
    false
}

fn link_target_exec(embed: bool, inner: &[char]) -> (r: Option<Vec<char>>)
    ensures
        link_target(embed, inner@) == (match r {
            Some(t) => seq![t@],
            None => Seq::<Seq<char>>::empty(),
        }),
{
    let pieces = split_char_exec(inner, '|');
    proof {
        crate::text::lemma_split_char_nonempty(inner@, '|');
    }
    let target = trim_exec(&pieces[0]);
    if target.len() == 0 {
        None
    } else if embed && is_media_exec(&target) {
        None
    } else {
        Some(target)
    }
}

/// The distinct targets of the wiki links in `text`, sorted. Embedded
/// images and PDFs (`![[a.png]]`) are not links.
pub fn extract_links(text: &str) -> (r: Vec<String>)
    ensures
        sorted_set_of(strs(r@), links_from(text@, 0)),
{
    let out = link_set(text);
    to_strings(&out)
}

pub fn link_set(text: &str) -> (r: Vec<Vec<char>>)
    ensures
        sorted_set_of(keys_view(r@), links_from(text@, 0)),
{
    let s = chars_of(text);
    let mut out: Vec<Vec<char>> = Vec::new();
    let ghost mut seen: Seq<Seq<char>> = seq![];
    let mut p: usize = 0;
    while p < s.len()
        invariant
            0 <= p <= s@.len(),
            s@ == text@,
            links_from(s@, 0) == seen + links_from(s@, p as int),
            sorted_set_of(keys_view(out@), seen),
        decreases s.len() - p,
    {
        match link_at_exec(&s, p) {
            Some((e, embed, inner)) => {
                if e > p {
                    let t = link_target_exec(embed, &inner);
                    proof {
                        let items = link_target(embed, inner@);
                        assert(seen + (items + links_from(s@, e as int)) =~= (seen + items)
                            + links_from(s@, e as int));
                    }
                    match t {
                        Some(tv) => {
                            let ghost before = keys_view(out@);
                            insert_sorted(&mut out, &tv);
                            proof {
                                let ns = seen + seq![tv@];
                                assert forall|x: Seq<char>| #[trigger] keys_view(out@).contains(x)
                                    <==> ns.contains(x) by {
                                    if x == tv@ {
                                        assert(ns[ns.len() - 1] == x);
                                    }
                                    if seen.contains(x) {
                                        let j = choose|j: int| 0 <= j < seen.len() && seen[j] == x;
                                        assert(ns[j] == x);
                                    }
                                    if ns.contains(x) && x != tv@ {
                                        let j = choose|j: int| 0 <= j < ns.len() && ns[j] == x;
                                        assert(seen[j] == x);
                                    }
                                }
                                seen = ns;
                            }
                        },
                        None => {
                            proof {
                                assert(seen + Seq::<Seq<char>>::empty() =~= seen);
                            }
                        },
                    }
                    p = e;
                } else {
                    proof {
                        assert(links_from(s@, p as int) =~= Seq::<Seq<char>>::empty());
                        assert(seen + links_from(s@, p as int) =~= seen);
                        assert(links_from(s@, s@.len() as int) =~= Seq::<Seq<char>>::empty());
                    }
                    p = s.len();
                }
            },
            None => {
                p += 1;
            },
        }
    }
    assert(seen + links_from(s@, p as int) =~= seen);
    out
}


/// A file an embed shows rather than links to: an image or a PDF, by its
/// name's ending in any case.
pub open spec fn media_name(t: Seq<char>) -> bool {
    let l = ascii_lower_seq(t);
    ||| is_suffix(".png"@, l)
    ||| is_suffix(".jpg"@, l)
    ||| is_suffix(".jpeg"@, l)
    ||| is_suffix(".gif"@, l)
    ||| is_suffix(".webp"@, l)
    ||| is_suffix(".bmp"@, l)
    ||| is_suffix(".svg"@, l)
    ||| is_suffix(".avif"@, l)
    ||| is_suffix(".pdf"@, l)
}

/// The wiki link at `q` names `x`: `x` is its target (before any `|`,
/// trimmed, not empty), and it is no embedded image or PDF.
pub open spec fn link_gives(s: Seq<char>, q: int, x: Seq<char>) -> bool {
    match link_at(s, q) {
        Some((_, embed, inner)) => x == trim(split_char(inner, '|')[0]) && x.len() > 0 && !(embed && media_name(
            x,
        )),
        None => false,
    }
}

proof fn lemma_media_name(x: Seq<char>)
    ensures
        media_name(x) ==> is_media(x),
{
    let l = ascii_lower_seq(x);
    let e = image_exts();
    if is_suffix(".png"@, l) { assert(e[0] == ".png"@); }
    if is_suffix(".jpg"@, l) { assert(e[1] == ".jpg"@); }
    if is_suffix(".jpeg"@, l) { assert(e[2] == ".jpeg"@); }
    if is_suffix(".gif"@, l) { assert(e[3] == ".gif"@); }
    if is_suffix(".webp"@, l) { assert(e[4] == ".webp"@); }
    if is_suffix(".bmp"@, l) { assert(e[5] == ".bmp"@); }
    if is_suffix(".svg"@, l) { assert(e[6] == ".svg"@); }
    if is_suffix(".avif"@, l) { assert(e[7] == ".avif"@); }
    if is_suffix(".pdf"@, l) { assert(e[8] == ".pdf"@); }
}

/// Every link a text is read to hold comes from a wiki link in it that
/// names it, and never from an embedded image or PDF (`![[photo.jpg]]`):
/// such a target is a link only where some plain `[[…]]` names it too.
pub proof fn law_links_come_from_wiki_links(s: Seq<char>, p: int, x: Seq<char>)
    requires
        0 <= p,
        links_from(s, p).contains(x),
    ensures
        exists|q: int| p <= q < s.len() && #[trigger] link_gives(s, q, x),
    decreases s.len() - p,
{
    if p < s.len() {
        match link_at(s, p) {
            Some((e, embed, inner)) => {
                if e > p {
                    let lt = link_target(embed, inner);
                    let rest = links_from(s, e);
                    assert(links_from(s, p) == lt + rest);
                    let j = choose|j: int| 0 <= j < (lt + rest).len() && (lt + rest)[j] == x;
                    if j < lt.len() {
                        lemma_media_name(x);
                        assert(link_gives(s, p, x));
                    } else {
                        assert(rest[j - lt.len()] == x);
                        assert(rest.contains(x));
                        law_links_come_from_wiki_links(s, e, x);
                        let q = choose|q: int| e <= q < s.len() && #[trigger] link_gives(s, q, x);
                        assert(p <= q);
                    }
                }
            },
            None => {
                law_links_come_from_wiki_links(s, p + 1, x);
                let q = choose|q: int| p + 1 <= q < s.len() && #[trigger] link_gives(s, q, x);
            },
        }
    }
}

// ───────────────────────── frontmatter ─────────────────────────

/// `s` without a leading byte-order mark.
pub open spec fn strip_bom(s: Seq<char>) -> Seq<char> {
    if s.len() > 0 && s[0] == '\u{feff}' {
        s.drop_first()
    } else {
        s
    }
}

/// Where the frontmatter starts when the text opens with `---` and a line break.
pub open spec fn fm_open(t: Seq<char>) -> Option<int> {
    if is_prefix("---\n"@, t) {
        Some(4)
    } else if is_prefix("---\r\n"@, t) {
        Some(5)
    } else {
        None
    }
}

/// Where a closing `\r?\n---` that starts at `j` ends.
pub open spec fn close_at(t: Seq<char>, j: int) -> Option<int> {
    if occurs_at(t, "\r\n---"@, j) {
        Some(j + 5)
    } else if occurs_at(t, "\n---"@, j) {
        Some(j + 4)
    } else {
        None
    }
}

/// The first `j` at or after `from` where a closing line starts.
pub open spec fn first_close(t: Seq<char>, from: int) -> Option<int>
    decreases t.len() - from,
{
    if from < 0 || from >= t.len() {
        None
    } else if close_at(t, from) is Some {
        Some(from)
    } else {
        first_close(t, from + 1)
    }
}

/// After the closing `---`: spaces and tabs, then an optional `\r`, then an
/// optional `\n`.
pub open spec fn fm_body_start(t: Seq<char>, e: int) -> int {
    let e2 = blank_run(t, e);
    let e3 = if 0 <= e2 < t.len() && t[e2] == '\r' { e2 + 1 } else { e2 };
    if 0 <= e3 < t.len() && t[e3] == '\n' { e3 + 1 } else { e3 }
}

pub open spec fn blank_run(t: Seq<char>, from: int) -> int
    decreases t.len() - from,
{
    if 0 <= from < t.len() && (t[from] == ' ' || t[from] == '\t') {
        blank_run(t, from + 1)
    } else {
        from
    }
}

/// The frontmatter text (between the opening `---` line and the first
/// closing `---`) and the body after it; with no frontmatter, `None` and
/// the whole text. A leading byte-order mark is dropped either way.
pub open spec fn split_fm_spec(s: Seq<char>) -> (Option<Seq<char>>, Seq<char>) {
    let t = strip_bom(s);
    match fm_open(t) {
        None => (None, t),
        Some(o) => match first_close(t, o) {
            None => (None, t),
            Some(j) => (Some(t.subrange(o, j)), t.skip(fm_body_start(t, close_at(t, j)->Some_0))),
        },
    }
}

pub proof fn lemma_blank_run(t: Seq<char>, from: int)
    requires
        0 <= from <= t.len(),
    ensures
        from <= blank_run(t, from) <= t.len(),
    decreases t.len() - from,
{
    if from < t.len() && (t[from] == ' ' || t[from] == '\t') {
        lemma_blank_run(t, from + 1);
    }
}

fn blank_run_exec(t: &[char], from: usize) -> (r: usize)
    requires
        from <= t.len(),
    ensures
        r as int == blank_run(t@, from as int),
        from <= r <= t.len(),
{
    let mut i = from;
    while i < t.len() && (t[i] == ' ' || t[i] == '\t')
        invariant
            from <= i <= t.len(),
            blank_run(t@, from as int) == blank_run(t@, i as int),
        decreases t.len() - i,
    {
        i += 1;
    }
    i
}

fn close_at_exec(t: &[char], j: usize) -> (r: Option<usize>)
    ensures
        match r {
            Some(e) => close_at(t@, j as int) == Some(e as int) && e <= t.len(),
            None => close_at(t@, j as int) is None,
        },
{
    let a = chars_of("\r\n---");
    let b = chars_of("\n---");
    proof {
        reveal_strlit("\r\n---");
        reveal_strlit("\n---");
    }
    if t.len() >= 5 && j <= t.len() - 5 && occurs_at_exec(t, &a, j) {
        Some(j + 5)
    } else if t.len() >= 4 && j <= t.len() - 4 && occurs_at_exec(t, &b, j) {
        Some(j + 4)
    } else {
        None
    }
}

/// Splits a document into its frontmatter text (if any) and its body.
pub fn split_frontmatter(text: &str) -> (r: (Option<String>, String))
    ensures
        split_fm_spec(text@) == ((match r.0 {
            Some(f) => Some(f@),
            None => None,
        }), r.1@),
{
    let s = chars_of(text);
    let t = if s.len() > 0 && s[0] == '\u{feff}' {
        slice_chars(&s, 1, s.len())
    } else {
        slice_chars(&s, 0, s.len())
    };
    assert(t@ =~= strip_bom(text@));
    let o: usize = if starts_with(&t, &chars_of("---\n")) {
        4
    } else if starts_with(&t, &chars_of("---\r\n")) {
        5
    } else {
        return (None, string_of(&t));
    };
    proof {
        reveal_strlit("---\n");
        reveal_strlit("---\r\n");
    }
    let mut j = o;
    while j < t.len()
        invariant
            o <= j <= t.len(),
            t@ == strip_bom(text@),
            fm_open(t@) == Some(o as int),
            first_close(t@, o as int) == first_close(t@, j as int),
        decreases t.len() - j,
    {
        match close_at_exec(&t, j) {
            Some(e) => {
                let fm = slice_chars(&t, o, j);
                let e2 = blank_run_exec(&t, e);
                let e3 = if e2 < t.len() && t[e2] == '\r' { e2 + 1 } else { e2 };
                let e4 = if e3 < t.len() && t[e3] == '\n' { e3 + 1 } else { e3 };
                let body = slice_chars(&t, e4, t.len());
                assert(body@ =~= t@.skip(e4 as int));
                assert(first_close(t@, j as int) == Some(j as int));
                assert(fm_body_start(t@, e as int) == e4);
                assert(fm@ =~= t@.subrange(o as int, j as int));
                return (Some(string_of(&fm)), string_of(&body));
            },
            None => {},
        }
        j += 1;
    }
    (None, string_of(&t))
}

// ───────────────────────── tags ─────────────────────────

pub open spec fn tag_start(c: char) -> bool {
    crate::unicode::is_letter_or_number_spec(c) || c == '_'
}

pub open spec fn tag_body(c: char) -> bool {
    tag_start(c) || c == '-' || c == '/'
}

/// A character that may not stand right before a `#` that opens a tag:
/// a word character, `#`, a letter, a number or `_`.
pub open spec fn tag_blocker(c: char) -> bool {
    crate::unicode::is_word_spec(c) || c == '#' || crate::unicode::is_letter_or_number_spec(c)
        || c == '_'
}

/// How many tag characters follow `from`, up to `max`.
pub open spec fn body_run(s: Seq<char>, from: int, max: int) -> int
    decreases max,
{
    if max <= 0 || from < 0 || from >= s.len() || !tag_body(s[from]) {
        0
    } else {
        1 + body_run(s, from + 1, max - 1)
    }
}

pub proof fn lemma_body_run(s: Seq<char>, from: int, max: int)
    requires
        0 <= from,
        0 <= max,
    ensures
        0 <= body_run(s, from, max) <= max,
        from <= s.len() ==> from + body_run(s, from, max) <= s.len(),
    decreases max,
{
    if max <= 0 || from < 0 || from >= s.len() || !tag_body(s[from]) {
    } else {
        lemma_body_run(s, from + 1, max - 1);
    }
}

/// A tag at `p`: `#` at the very start, or `#` after a character that is
/// no blocker (which the match takes along), then a tag character and up to
/// forty more. Gives where the match ends and the tag.
pub open spec fn tag_at(s: Seq<char>, p: int) -> Option<(int, Seq<char>)> {
    if p == 0 && s.len() >= 2 && s[0] == '#' && tag_start(s[1]) {
        let e = 2 + body_run(s, 2, 40);
        Some((e, s.subrange(1, e)))
    } else if 0 <= p && p + 2 < s.len() && !tag_blocker(s[p]) && s[p + 1] == '#' && tag_start(
        s[p + 2],
    ) {
        let e = p + 3 + body_run(s, p + 3, 40);
        Some((e, s.subrange(p + 2, e)))
    } else {
        None
    }
}

/// The tags from `p` on, scanning left to right.
pub open spec fn tags_from(s: Seq<char>, p: int) -> Seq<Seq<char>>
    decreases s.len() - p,
{
    if p < 0 || p >= s.len() {
        seq![]
    } else {
        match tag_at(s, p) {
            Some((e, t)) => if e > p {
                proof {
                    lemma_body_run(s, 2, 40);
                    lemma_body_run(s, p + 3, 40);
                }
                seq![t] + tags_from(s, e)
            } else {
                seq![]
            },
            None => tags_from(s, p + 1),
        }
    }
}

/// The tags of a document's lines: fenced code (between lines starting
/// with three backticks or tildes) is skipped, and a heading's leading `#`s
/// are not taken for a tag.
pub open spec fn tags_lines(ls: Seq<Seq<char>>, in_fence: bool) -> Seq<Seq<char>>
    decreases ls.len(),
{
    if ls.len() == 0 {
        seq![]
    } else {
        let line = ls[0];
        let t = trim_start(line);
        if is_prefix("```"@, t) || is_prefix("~~~"@, t) {
            tags_lines(ls.drop_first(), !in_fence)
        } else if in_fence {
            tags_lines(ls.drop_first(), in_fence)
        } else {
            let scan = if is_prefix("#"@, t) {
                trim_start_chars(t, seq!['#'])
            } else {
                line
            };
            tags_from(scan, 0) + tags_lines(ls.drop_first(), in_fence)
        }
    }
}

fn tag_start_exec(c: char) -> (r: bool)
    ensures
        r == tag_start(c),
{
    is_letter_or_number(c) || c == '_'
}

fn tag_body_exec(c: char) -> (r: bool)
    ensures
        r == tag_body(c),
{
    tag_start_exec(c) || c == '-' || c == '/'
}

fn body_run_exec(s: &[char], from: usize) -> (r: usize)
    requires
        from <= s.len(),
    ensures
        r as int == body_run(s@, from as int, 40),
        from + r <= s.len(),
        r <= 40,
{
    proof {
        lemma_body_run(s@, from as int, 40);
    }
    let mut n: usize = 0;
    while n < 40 && from + n < s.len() && tag_body_exec(s[from + n])
        invariant
            0 <= n <= 40,
            from + n <= s.len(),
            body_run(s@, from as int, 40) == n + body_run(s@, from + n, 40 - n),
        decreases 40 - n,
    {
        n += 1;
    }
    n
}

fn tag_at_exec(s: &[char], p: usize) -> (r: Option<(usize, Vec<char>)>)
    ensures
        match r {
            Some((e, t)) => tag_at(s@, p as int) == Some((e as int, t@)),
            None => tag_at(s@, p as int) is None,
        },
{
    if p == 0 && s.len() >= 2 && s[0] == '#' && tag_start_exec(s[1]) {
        let e = 2 + body_run_exec(s, 2);
        return Some((e, slice_chars(s, 1, e)));
    }
    if p < s.len() && s.len() - p > 2 && !(is_word_char(s[p]) || s[p] == '#' || is_letter_or_number(
        s[p],
    ) || s[p] == '_') && s[p + 1] == '#' && tag_start_exec(s[p + 2]) {
        let e = p + 3 + body_run_exec(s, p + 3);
        return Some((e, slice_chars(s, p + 2, e)));
    }
    None
}

/// Adds the tags of `scan` to the sorted set `out`.
fn add_tags_of(out: &mut Vec<Vec<char>>, scan: &[char], Ghost(seen): Ghost<Seq<Seq<char>>>)
    requires
        sorted_set_of(keys_view(old(out)@), seen),
    ensures
        sorted_set_of(keys_view(final(out)@), seen + tags_from(scan@, 0)),
{
    let ghost mut acc = seen;
    let mut p: usize = 0;
    assert(acc + tags_from(scan@, 0) =~= seen + tags_from(scan@, 0));
    while p < scan.len()
        invariant
            0 <= p <= scan@.len(),
            seen + tags_from(scan@, 0) == acc + tags_from(scan@, p as int),
            sorted_set_of(keys_view(out@), acc),
        decreases scan.len() - p,
    {
        match tag_at_exec(scan, p) {
            Some((e, t)) => {
                if e > p {
                    insert_sorted(out, &t);
                    proof {
                        let na = acc + seq![t@];
                        assert(acc + (seq![t@] + tags_from(scan@, e as int)) =~= na + tags_from(
                            scan@,
                            e as int,
                        ));
                        assert forall|x: Seq<char>| #[trigger] keys_view(out@).contains(x)
                            <==> na.contains(x) by {
                            if x == t@ {
                                assert(na[na.len() - 1] == x);
                            }
                            if acc.contains(x) {
                                let j = choose|j: int| 0 <= j < acc.len() && acc[j] == x;
                                assert(na[j] == x);
                            }
                            if na.contains(x) && x != t@ {
                                let j = choose|j: int| 0 <= j < na.len() && na[j] == x;
                                assert(acc[j] == x);
                            }
                        }
                        acc = na;
                    }
                    assert(e <= scan.len()) by {
                        lemma_body_run(scan@, p + 3, 40);
                        lemma_body_run(scan@, 2, 40);
                    }
                    p = e;
                } else {
                    proof {
                        assert(acc + tags_from(scan@, p as int) =~= acc + tags_from(scan@, scan@.len() as int));
                    }
                    p = scan.len();
                }
            },
            None => {
                p += 1;
            },
        }
    }
    assert(acc + tags_from(scan@, p as int) =~= acc);
}

/// The distinct tags of `text`, sorted.
pub fn extract_tags(text: &str) -> (r: Vec<String>)
    ensures
        sorted_set_of(strs(r@), tags_lines(lines(text@), false)),
{
    let out = tag_set(text);
    to_strings(&out)
}

pub fn tag_set(text: &str) -> (r: Vec<Vec<char>>)
    ensures
        sorted_set_of(keys_view(r@), tags_lines(lines(text@), false)),
{
    let ls = lines_exec(&chars_of(text));
    let ghost gl = lines(text@);
    assert(keys_of(ls@) =~= gl);
    let mut out: Vec<Vec<char>> = Vec::new();
    let ghost mut seen: Seq<Seq<char>> = seq![];
    let mut in_fence = false;
    let mut i: usize = 0;
    assert(gl.skip(0) =~= gl);
    while i < ls.len()
        invariant
            0 <= i <= ls@.len(),
            keys_of(ls@) == gl,
            tags_lines(gl, false) == seen + tags_lines(gl.skip(i as int), in_fence),
            sorted_set_of(keys_view(out@), seen),
        decreases ls.len() - i,
    {
        let line = &ls[i];
        assert(gl.skip(i as int)[0] == line@);
        assert(gl.skip(i as int).drop_first() =~= gl.skip(i + 1));
        let t = trim_start_exec(line);
        if starts_with(&t, &chars_of("```")) || starts_with(&t, &chars_of("~~~")) {
            in_fence = !in_fence;
        } else if in_fence {
        } else {
            let scan = if starts_with(&t, &chars_of("#")) {
                let hash = vec!['#'];
                assert(hash@ =~= seq!['#']);
                trim_start_chars_exec(&t, &hash)
            } else {
                slice_chars(line, 0, line.len())
            };
            assert(scan@ =~= (if is_prefix("#"@, t@) {
                trim_start_chars(t@, seq!['#'])
            } else {
                line@
            }));
            add_tags_of(&mut out, &scan, Ghost(seen));
            proof {
                assert(seen + (tags_from(scan@, 0) + tags_lines(gl.skip(i + 1), in_fence)) =~= (seen
                    + tags_from(scan@, 0)) + tags_lines(gl.skip(i + 1), in_fence));
                seen = seen + tags_from(scan@, 0);
            }
        }
        i += 1;
    }
    assert(gl.skip(i as int) =~= Seq::<Seq<char>>::empty());
    assert(seen + tags_lines(gl.skip(i as int), in_fence) =~= seen);
    out
}


// ───────────────────────── frontmatter fields ─────────────────────────

/// A frontmatter field as serde_yaml reads it: a string, a number (as
/// serde_yaml writes it out), a boolean, some other value, or nothing
/// (no such field, or text that is no YAML).
pub enum YamlScalar {
    Text(String),
    Number(String),
    Bool(bool),
    Other,
    Missing,
}

pub enum YamlScalarView {
    Text(Seq<char>),
    Number(Seq<char>),
    Bool(bool),
    Other,
    Missing,
}

pub open spec fn scalar_view(v: YamlScalar) -> YamlScalarView {
    match v {
        YamlScalar::Text(s) => YamlScalarView::Text(s@),
        YamlScalar::Number(s) => YamlScalarView::Number(s@),
        YamlScalar::Bool(b) => YamlScalarView::Bool(b),
        YamlScalar::Other => YamlScalarView::Other,
        YamlScalar::Missing => YamlScalarView::Missing,
    }
}

/// What serde_yaml reads as the field `key` of the YAML in `fm`.
pub uninterp spec fn yaml_scalar(fm: Seq<char>, key: Seq<char>) -> YamlScalarView;

/// The items of the field `key` of the YAML in `fm` when it is a sequence,
/// each as its string (`None` for an item that is no string); `None` when
/// the field is no sequence, is missing, or the text is no YAML.
pub uninterp spec fn yaml_seq_items(fm: Seq<char>, key: Seq<char>) -> Option<Seq<Option<Seq<char>>>>;

/// A field's value as text: a string as is, a number or a boolean as
/// written out, anything else as empty.
pub open spec fn scalar_text(v: YamlScalarView) -> Seq<char> {
    match v {
        YamlScalarView::Text(s) => s,
        YamlScalarView::Number(s) => s,
        YamlScalarView::Bool(b) => if b { "true"@ } else { "false"@ },
        YamlScalarView::Other => seq![],
        YamlScalarView::Missing => seq![],
    }
}

/// The strings among `items`, in order.
pub open spec fn some_items(items: Seq<Option<Seq<char>>>) -> Seq<Seq<char>>
    decreases items.len(),
{
    if items.len() == 0 {
        seq![]
    } else {
        match items.last() {
            Some(x) => some_items(items.drop_last()).push(x),
            None => some_items(items.drop_last()),
        }
    }
}

pub open spec fn opt_strs(v: Seq<Option<String>>) -> Seq<Option<Seq<char>>> {
    v.map_values(|o: Option<String>| opt_str(o))
}

/// `serde_yaml::from_str::<serde_yaml::Value>` on `fm`, then `Value::get`
/// with `key`, each kind of value moved into a `YamlScalar` (a number
/// written with `to_string`). The claim is only that the result is a
/// function of `fm` and `key`.
#[verifier::external_body]
fn yaml_field(fm: &str, key: &str) -> (r: YamlScalar)
    ensures
        scalar_view(r) == yaml_scalar(fm@, key@),
{
    match serde_yaml::from_str::<serde_yaml::Value>(fm).ok().as_ref().and_then(|v| v.get(key)) {
        Some(serde_yaml::Value::String(s)) => YamlScalar::Text(s.clone()),
        Some(serde_yaml::Value::Number(n)) => YamlScalar::Number(n.to_string()),
        Some(serde_yaml::Value::Bool(b)) => YamlScalar::Bool(*b),
        Some(_) => YamlScalar::Other,
        None => YamlScalar::Missing,
    }
}

/// `serde_yaml::from_str::<serde_yaml::Value>` on `fm`, then `Value::get`
/// with `key`; when that is a sequence, `Value::as_str` of each item. The
/// claim is only that the result is a function of `fm` and `key`.
#[verifier::external_body]
fn yaml_items(fm: &str, key: &str) -> (r: Option<Vec<Option<String>>>)
    ensures
        match r {
            Some(v) => yaml_seq_items(fm@, key@) == Some(opt_strs(v@)),
            None => yaml_seq_items(fm@, key@) is None,
        },
{
    match serde_yaml::from_str::<serde_yaml::Value>(fm).ok().as_ref().and_then(|v| v.get(key)) {
        Some(serde_yaml::Value::Sequence(items)) => Some(items.iter().map(|v| v.as_str().map(|x| x.to_string())).collect()),
        Some(_) => None,
        None => None,
    }
}

/// A field's value as text.
fn scalar_text_exec(v: YamlScalar) -> (r: String)
    ensures
        r@ == scalar_text(scalar_view(v)),
{
    match v {
        YamlScalar::Text(s) => s,
        YamlScalar::Number(s) => s,
        YamlScalar::Bool(b) => if b {
            "true".to_string()
        } else {
            "false".to_string()
        },
        YamlScalar::Other => String::new(),
        YamlScalar::Missing => String::new(),
    }
}

/// The strings among `items`, in order.
fn some_items_exec(items: Vec<Option<String>>) -> (r: Vec<String>)
    ensures
        strs(r@) == some_items(opt_strs(items@)),
{
    let mut r: Vec<String> = Vec::new();
    let mut i: usize = 0;
    let ghost all = opt_strs(items@);
    while i < items.len()
        invariant
            0 <= i <= items@.len(),
            all == opt_strs(items@),
            strs(r@) == some_items(all.take(i as int)),
        decreases items.len() - i,
    {
        assert(all.take(i + 1).drop_last() =~= all.take(i as int));
        assert(all.take(i + 1).last() == opt_str(items@[i as int]));
        match &items[i] {
            Some(x) => {
                let ghost before = strs(r@);
                r.push(x.clone());
                assert(strs(r@) =~= before.push(x@));
            },
            None => {},
        }
        i += 1;
    }
    assert(all.take(items@.len() as int) =~= all);
    r
}

/// The frontmatter field `key` as text; empty when there is no frontmatter
/// or it is blank.
pub open spec fn fm_str_spec(fm: Option<Seq<char>>, key: Seq<char>) -> Seq<char> {
    match fm {
        Some(f) => if trim(f).len() > 0 {
            scalar_text(yaml_scalar(f, key))
        } else {
            seq![]
        },
        None => seq![],
    }
}

pub open spec fn fm_items_spec(fm: Option<Seq<char>>, key: Seq<char>) -> Seq<Seq<char>> {
    match fm {
        Some(f) => if trim(f).len() > 0 {
            match yaml_seq_items(f, key) {
                Some(items) => some_items(items),
                None => seq![],
            }
        } else {
            seq![]
        },
        None => seq![],
    }
}

pub open spec fn opt_str(o: Option<String>) -> Option<Seq<char>> {
    match o {
        Some(s) => Some(s@),
        None => None,
    }
}

/// A frontmatter field as text.
pub fn fm_str(fm: &Option<String>, key: &str) -> (r: String)
    ensures
        r@ == fm_str_spec(opt_str(*fm), key@),
{
    match fm {
        Some(f) => {
            if trim_exec(&chars_of(f.as_str())).len() > 0 {
                scalar_text_exec(yaml_field(f.as_str(), key))
            } else {
                String::new()
            }
        },
        None => String::new(),
    }
}

pub fn fm_items(fm: &Option<String>, key: &str) -> (r: Vec<String>)
    ensures
        strs(r@) == fm_items_spec(opt_str(*fm), key@),
{
    match fm {
        Some(f) => {
            if trim_exec(&chars_of(f.as_str())).len() > 0 {
                match yaml_items(f.as_str(), key) {
                    Some(items) => some_items_exec(items),
                    None => {
                        let v: Vec<String> = Vec::new();
                        assert(strs(v@) =~= Seq::<Seq<char>>::empty());
                        v
                    },
                }
            } else {
                let v: Vec<String> = Vec::new();
                assert(strs(v@) =~= Seq::<Seq<char>>::empty());
                v
            }
        },
        None => {
            let v: Vec<String> = Vec::new();
            assert(strs(v@) =~= Seq::<Seq<char>>::empty());
            v
        },
    }
}

// ───────────────────────── counting joined texts ─────────────────────────

proof fn lemma_trim_start_append(x: Seq<char>, z: Seq<char>)
    ensures
        (forall|i: int| 0 <= i < x.len() ==> is_ws(#[trigger] x[i])) ==> trim_start(x + z) == trim_start(z),
        trim_start(x).len() > 0 ==> trim_start(x + z) == trim_start(x) + z,
    decreases x.len(),
{
    if x.len() > 0 {
        assert((x + z)[0] == x[0]);
        assert((x + z).drop_first() =~= x.drop_first() + z);
        lemma_trim_start_append(x.drop_first(), z);
        if forall|i: int| 0 <= i < x.len() ==> is_ws(#[trigger] x[i]) {
            assert(is_ws(x[0]));
            assert forall|i: int| 0 <= i < x.drop_first().len() implies is_ws(#[trigger] x.drop_first()[i]) by {
                assert(x.drop_first()[i] == x[i + 1]);
            }
        }
    } else {
        assert(x + z =~= z);
    }
}

proof fn lemma_trim_start_all_ws(x: Seq<char>)
    ensures
        trim_start(x).len() == 0 ==> forall|i: int| 0 <= i < x.len() ==> is_ws(#[trigger] x[i]),
    decreases x.len(),
{
    if x.len() > 0 && is_ws(x[0]) {
        lemma_trim_start_all_ws(x.drop_first());
        assert forall|i: int| 0 <= i < x.len() && trim_start(x).len() == 0 implies is_ws(#[trigger] x[i]) by {
            if i > 0 {
                assert(x[i] == x.drop_first()[i - 1]);
            }
        }
    }
}

proof fn lemma_word_len_append(a: Seq<char>, b: Seq<char>, from: int)
    requires
        0 <= from <= a.len(),
        b.len() > 0,
        is_ws(b[0]),
    ensures
        crate::text::word_len(a + b, from) == crate::text::word_len(a, from),
    decreases a.len() - from,
{
    let s = a + b;
    if from < a.len() {
        assert(s[from] == a[from]);
        if !is_ws(a[from]) {
            lemma_word_len_append(a, b, from + 1);
        }
    } else {
        assert(s[from] == b[0]);
    }
}

/// Words of two texts joined by a space: the words of each, in order.
proof fn lemma_words_join(x: Seq<char>, y: Seq<char>)
    ensures
        words(x + seq![' '] + y) == words(x) + words(y),
    decreases x.len(),
{
    let s = x + seq![' '] + y;
    assert(is_ws(' ')) by {
        assert((' ' as u32) == 32);
    }
    let tx = trim_start(x);
    crate::text::lemma_trim_start_suffix(x);
    lemma_trim_start_all_ws(x);
    assert(s =~= x + (seq![' '] + y));
    lemma_trim_start_append(x, seq![' '] + y);
    if tx.len() == 0 {
        assert((seq![' '] + y).drop_first() =~= y);
        assert(trim_start(seq![' '] + y) == trim_start(y));
        assert(trim_start(s) == trim_start(y));
        assert(words(x) =~= Seq::<Seq<char>>::empty());
        assert(words(s) == words(y)) by {
            crate::text::lemma_trim_start_suffix(y);
            crate::text::lemma_trim_start_suffix(s);
        }
        assert(words(x) + words(y) =~= words(y));
    } else {
        let t = trim_start(s);
        assert(t == tx + (seq![' '] + y));
        crate::text::lemma_word_len(tx, 0);
        lemma_word_len_append(tx, seq![' '] + y, 0);
        let n = crate::text::word_len(tx, 0);
        assert(n > 0);
        let r = tx.skip(n);
        assert(t.take(n) =~= tx.take(n));
        assert(t.skip(n) =~= r + seq![' '] + y);
        lemma_words_join(r, y);
        crate::text::lemma_trim_start_suffix(s);
        assert(words(s) == seq![t.take(n)] + words(t.skip(n)));
        assert(words(x) == seq![tx.take(n)] + words(r));
        assert(words(s) =~= words(x) + words(y));
    }
}

/// Word counts add up: a text made of two texts joined by a space counts
/// as many words as the two together.
pub proof fn law_word_counts_add_up(a: Seq<char>, b: Seq<char>)
    ensures
        count_words_spec(a + seq![' '] + b) == count_words_spec(a) + count_words_spec(b),
{
    broadcast use vstd::seq_lib::group_filter_ensures;
    let s = a + seq![' '] + b;
    let cj = |c: char| is_cjk(c);
    assert(!is_cjk(' ')) by {
        assert((' ' as u32) == 32);
    }
    Seq::filter_distributes_over_add(a + seq![' '], b, cj);
    Seq::filter_distributes_over_add(a, seq![' '], cj);
    assert(seq![' '].filter(cj) =~= Seq::<char>::empty()) by {
        reveal_with_fuel(Seq::filter, 2);
        assert(seq![' '].drop_last() =~= Seq::<char>::empty());
    }
    assert(cjk_count(s) == cjk_count(a) + cjk_count(b));
    assert(latin_part(s) =~= latin_part(a) + seq![' '] + latin_part(b));
    lemma_words_join(latin_part(a), latin_part(b));
    let hw = |w: Seq<char>| has_alphanumeric(w);
    Seq::filter_distributes_over_add(words(latin_part(a)), words(latin_part(b)), hw);
}

// ───────────────────────── titles of documents ─────────────────────────

/// The first `# heading` among `ls`, trimmed, if any is non-empty.
pub open spec fn first_heading(ls: Seq<Seq<char>>) -> Option<Seq<char>>
    decreases ls.len(),
{
    if ls.len() == 0 {
        None
    } else {
        let t = trim(ls[0]);
        if is_prefix("# "@, t) && trim(t.skip(2)).len() > 0 {
            Some(trim(t.skip(2)))
        } else {
            first_heading(ls.drop_first())
        }
    }
}

/// A document's title: its first `# heading` within the first 30 lines,
/// else the frontmatter `title`, else the file name.
pub open spec fn derive_title_spec(body: Seq<char>, fm: Option<Seq<char>>, stem: Seq<char>) -> Seq<
    char,
> {
    let ls = lines(body);
    match first_heading(ls.take(if ls.len() < 30 { ls.len() as int } else { 30 })) {
        Some(h) => h,
        None => if fm_str_spec(fm, "title"@).len() > 0 {
            fm_str_spec(fm, "title"@)
        } else {
            stem
        },
    }
}

pub fn derive_title(body: &str, fm: &Option<String>, stem: &str) -> (r: String)
    ensures
        r@ == derive_title_spec(body@, opt_str(*fm), stem@),
{
    let ls = lines_exec(&chars_of(body));
    let ghost gl = lines(body@);
    assert(keys_of(ls@) =~= gl);
    let n = if ls.len() < 30 { ls.len() } else { 30 };
    let ghost top = gl.take(n as int);
    let mut i: usize = 0;
    let hash = chars_of("# ");
    proof {
        reveal_strlit("# ");
    }
    assert(top.skip(0) =~= top);
    while i < n
        invariant
            0 <= i <= n <= ls@.len(),
            keys_of(ls@) == gl,
            top == gl.take(n as int),
            hash@ == "# "@,
            hash@.len() == 2,
            gl == lines(body@),
            n == (if gl.len() < 30 { gl.len() } else { 30 }),
            first_heading(top) == first_heading(top.skip(i as int)),
        decreases n - i,
    {
        let t = trim_exec(&ls[i]);
        assert(top.skip(i as int)[0] == ls@[i as int]@);
        assert(top.skip(i as int).drop_first() =~= top.skip(i + 1));
        if starts_with(&t, &hash) {
            let after = slice_chars(&t, 2, t.len());
            assert(after@ =~= t@.skip(2));
            let r = trim_exec(&after);
            if r.len() > 0 {
                return string_of(&r);
            }
        }
        i += 1;
    }
    assert(top.skip(n as int) =~= Seq::<Seq<char>>::empty());
    let from_fm = fm_str(fm, "title");
    if !from_fm.as_str().is_empty() {
        from_fm
    } else {
        stem.to_owned()
    }
}


// ───────────────────────── laws ─────────────────────────

pub open spec fn no_forbidden(s: Seq<char>) -> bool {
    forall|i: int| 0 <= i < s.len() ==> !title_forbidden(#[trigger] s[i])
}

proof fn lemma_trim_keeps_allowed(a: Seq<char>)
    requires
        no_forbidden(a),
    ensures
        no_forbidden(trim(a)),
{
    crate::text::lemma_trim_start_suffix(a);
    let t = crate::text::trim_start(a);
    assert forall|i: int| 0 <= i < t.len() implies !title_forbidden(#[trigger] t[i]) by {
        assert(t[i] == a[a.len() - t.len() + i]);
    }
    crate::text::lemma_trim_end_prefix(t);
    let u = crate::text::trim_end(t);
    assert forall|i: int| 0 <= i < u.len() implies !title_forbidden(#[trigger] u[i]) by {
        assert(u[i] == t[i]);
    }
}

proof fn lemma_trim_end_chars_prefix(a: Seq<char>, strip: Seq<char>)
    ensures
        trim_end_chars(a, strip).len() <= a.len(),
        trim_end_chars(a, strip) == a.take(trim_end_chars(a, strip).len() as int),
    decreases a.len(),
{
    if a.len() > 0 && strip.contains(a.last()) {
        lemma_trim_end_chars_prefix(a.drop_last(), strip);
        assert(a.drop_last().take(trim_end_chars(a, strip).len() as int) =~= a.take(
            trim_end_chars(a, strip).len() as int,
        ));
    } else {
        assert(a.take(a.len() as int) =~= a);
    }
}

/// A title made safe holds none of the characters a file name may not
/// hold (nor a line break), and has at most 120 characters.
pub proof fn law_safe_titles(s: Seq<char>)
    ensures
        no_forbidden(sanitize_title_spec(s)),
        sanitize_title_spec(s).len() <= 120,
{
    broadcast use vstd::seq_lib::group_filter_ensures;

    let f = trim(s).filter(|c: char| !title_forbidden(c));
    assert(no_forbidden(f));
    lemma_trim_keeps_allowed(f);
    let a = trim(f);
    lemma_trim_end_chars_prefix(a, seq!['.']);
    let b = trim_end_chars(a, seq!['.']);
    assert forall|i: int| 0 <= i < b.len() implies !title_forbidden(#[trigger] b[i]) by {
        assert(b[i] == a[i]);
    }
    let r = sanitize_title_spec(s);
    assert forall|i: int| 0 <= i < r.len() implies !title_forbidden(#[trigger] r[i]) by {
        assert(r[i] == b[i]);
    }
}
} // verus!
