//! Paths inside the vault: keeping a relative path inside it, which files
//! are Markdown, which are never looked at, and where attachments go.
//! Paths here are texts whose parts a slash or a backslash separates, so
//! that Windows paths read as they do on Windows.

use vstd::prelude::*;
use crate::index::{last_dot, named_parts, path_parts};
use crate::text::{
    find_char_from, lemma_find_char_from, no_char, ascii_lower_exec, ascii_lower_seq, chars_eq, chars_of, concat, contains_chars, contains_sub,
    ends_with, fmt_usize, is_prefix, is_suffix, join, join_exec, keys_view, push_all,
    slice_chars, split_char, split_char_exec, starts_with, string_of, trim, trim_exec,
};

verus! {

/// Marks a file being written (it is renamed over its target when done).
pub const TMP_TAG: &'static str = ".mnesphere-tmp";

/// The largest pasted image accepted, in bytes.
pub const MAX_PASTE_BYTES: usize = 33554432;

/// A Windows drive prefix at the start of a path: an ASCII letter and `:`.
pub open spec fn drive_prefixed(p: Seq<char>) -> bool {
    p.len() >= 2 && crate::unicode::is_ascii_letter(p[0]) && p[1] == ':'
}

/// A path without its leading drive prefix (`C:` of `C:\x` or `C:x`), as
/// `Path::components` sets it apart on Windows; other parts keep any `:`.
pub open spec fn without_drive(p: Seq<char>) -> Seq<char> {
    if drive_prefixed(p) {
        p.skip(2)
    } else {
        p
    }
}

/// A name a path kept in the vault may hold: not empty, `.` or `..`.
pub open spec fn plain_name(n: Seq<char>) -> bool {
    n.len() > 0 && n != "."@ && n != ".."@
}

/// The parts of a path that are names, as `Path::components` gives them:
/// the `..` parts dropped (roots and `.` are no parts already).
pub open spec fn safe_parts(ps: Seq<Seq<char>>) -> Seq<Seq<char>>
    decreases ps.len(),
{
    if ps.len() == 0 {
        seq![]
    } else if ps.last() == ".."@ {
        safe_parts(ps.drop_last())
    } else {
        safe_parts(ps.drop_last()).push(ps.last())
    }
}

/// A relative path kept inside the vault: the names of its parts, in
/// order, with no drive prefix, no root, no `.` and no `..`, joined with
/// `/`.
pub open spec fn sanitize_rel_spec(rel: Seq<char>) -> Seq<char> {
    join(safe_parts(path_parts(without_drive(rel))), "/"@)
}

proof fn lemma_split_no_sep(s: Seq<char>, c: char, d: char)
    requires
        no_char(s, d),
    ensures
        forall|k: int| 0 <= k < split_char(s, c).len() ==> no_char(#[trigger] split_char(s, c)[k], c) && no_char(
            split_char(s, c)[k],
            d,
        ),
    decreases s.len(),
{
    lemma_find_char_from(s, c, 0);
    match find_char_from(s, c, 0) {
        Some(i) => {
            let t = s.skip(i + 1);
            assert(no_char(t, d)) by {
                assert forall|j: int| 0 <= j < t.len() implies t[j] != d by {
                    assert(t[j] == s[i + 1 + j]);
                }
            }
            lemma_split_no_sep(t, c, d);
            let sp = split_char(s, c);
            let rest = split_char(t, c);
            assert(sp == seq![s.take(i)] + rest);
            assert forall|k: int| 0 <= k < sp.len() implies no_char(#[trigger] sp[k], c) && no_char(sp[k], d) by {
                if k == 0 {
                    assert forall|j: int| 0 <= j < sp[0].len() implies sp[0][j] != c && sp[0][j] != d by {
                        assert(sp[0][j] == s[j]);
                    }
                } else {
                    assert(sp[k] == rest[k - 1]);
                }
            }
        },
        None => {
            assert(split_char(s, c) == seq![s]);
        },
    }
}

proof fn lemma_named_parts_from(ps: Seq<Seq<char>>, c: char)
    requires
        forall|k: int| 0 <= k < ps.len() ==> no_char(#[trigger] ps[k], c),
    ensures
        forall|k: int| 0 <= k < named_parts(ps).len() ==> no_char(#[trigger] named_parts(ps)[k], c),
    decreases ps.len(),
{
    if ps.len() > 0 {
        let dl = ps.drop_last();
        assert forall|k: int| 0 <= k < dl.len() implies no_char(#[trigger] dl[k], c) by {
            assert(dl[k] == ps[k]);
        }
        lemma_named_parts_from(dl, c);
        let rest = named_parts(dl);
        assert(no_char(ps[ps.len() - 1], c));
        assert forall|k: int| 0 <= k < named_parts(ps).len() implies no_char(#[trigger] named_parts(ps)[k], c) by {
            if k < rest.len() {
                assert(named_parts(ps)[k] == rest[k]);
            }
        }
    }
}

/// The parts of a path hold neither separator.
proof fn lemma_path_parts_free(p: Seq<char>)
    ensures
        forall|k: int| 0 <= k < path_parts(p).len() ==> no_char(#[trigger] path_parts(p)[k], '/') && no_char(
            path_parts(p)[k],
            '\\',
        ),
{
    let q = crate::index::slashed(p);
    assert(no_char(q, '\\'));
    lemma_split_no_sep(q, '/', '\\');
    let sp = split_char(q, '/');
    lemma_named_parts_from(sp, '/');
    lemma_named_parts_from(sp, '\\');
}

proof fn lemma_named_parts_plain(ps: Seq<Seq<char>>)
    ensures
        forall|k: int|
            0 <= k < named_parts(ps).len() ==> (#[trigger] named_parts(ps)[k]).len() > 0 && named_parts(ps)[k]
                != "."@,
    decreases ps.len(),
{
    if ps.len() > 0 {
        let rest = named_parts(ps.drop_last());
        lemma_named_parts_plain(ps.drop_last());
        assert forall|k: int| 0 <= k < named_parts(ps).len() implies (#[trigger] named_parts(ps)[k]).len() > 0
            && named_parts(ps)[k] != "."@ by {
            if k < rest.len() {
                assert(named_parts(ps)[k] == rest[k]);
            }
        }
    }
}

proof fn lemma_safe_parts_plain(ps: Seq<Seq<char>>)
    requires
        forall|k: int| 0 <= k < ps.len() ==> (#[trigger] ps[k]).len() > 0 && ps[k] != "."@ && no_char(ps[k], '/')
            && no_char(ps[k], '\\'),
    ensures
        forall|k: int|
            0 <= k < safe_parts(ps).len() ==> {
                let n = #[trigger] safe_parts(ps)[k];
                &&& plain_name(n)
                &&& no_char(n, '/') && no_char(n, '\\')
            },
        forall|k: int| 0 <= k < safe_parts(ps).len() ==> ps.contains(#[trigger] safe_parts(ps)[k]),
    decreases ps.len(),
{
    if ps.len() > 0 {
        let init = ps.drop_last();
        assert forall|k: int| 0 <= k < init.len() implies (#[trigger] init[k]).len() > 0 && init[k] != "."@
            && no_char(init[k], '/') && no_char(init[k], '\\') by {
            assert(init[k] == ps[k]);
        }
        lemma_safe_parts_plain(init);
        let rest = safe_parts(init);
        let l = ps[ps.len() - 1];
        assert(ps.last() == l);
        assert forall|k: int| 0 <= k < safe_parts(ps).len() implies {
            let n = #[trigger] safe_parts(ps)[k];
            &&& plain_name(n)
            &&& no_char(n, '/') && no_char(n, '\\')
        } && ps.contains(safe_parts(ps)[k]) by {
            if k < rest.len() {
                assert(safe_parts(ps)[k] == rest[k]);
                assert(init.contains(rest[k]));
                let j = choose|j: int| 0 <= j < init.len() && init[j] == rest[k];
                assert(ps[j] == rest[k]);
            } else {
                assert(safe_parts(ps)[k] == l);
            }
        }
    }
}

/// Whatever relative path is asked for, every part of what is kept of it
/// is one of the path's own names: none is empty, `.` or `..`, none holds
/// a separator (`/` or `\`), and a drive prefix at the start is gone, so
/// the path cannot climb out of the vault.
pub proof fn law_kept_path_stays_inside(rel: Seq<char>)
    ensures
        forall|k: int|
            0 <= k < safe_parts(path_parts(without_drive(rel))).len() ==> {
                let part = #[trigger] safe_parts(path_parts(without_drive(rel)))[k];
                &&& part.len() > 0 && part != "."@ && part != ".."@
                &&& no_char(part, '/') && no_char(part, '\\')
                &&& path_parts(without_drive(rel)).contains(part)
            },
{
    let p = without_drive(rel);
    lemma_named_parts_plain(split_char(crate::index::slashed(p), '/'));
    lemma_path_parts_free(p);
    lemma_safe_parts_plain(path_parts(p));
}

fn name_parts_exec(p: &[char]) -> (r: Vec<Vec<char>>)
    ensures
        keys_view(r@) == path_parts(p@),
{
    let q = crate::text::replace_char_exec(p, '\\', '/');
    let split = split_char_exec(&q, '/');
    let ghost sp = split_char(crate::index::slashed(p@), '/');
    let mut parts: Vec<Vec<char>> = Vec::new();
    let dot = chars_of(".");
    let mut i: usize = 0;
    assert(sp.take(0) =~= Seq::<Seq<char>>::empty());
    while i < split.len()
        invariant
            0 <= i <= split@.len(),
            split@.len() == sp.len(),
            forall|k: int| 0 <= k < split@.len() ==> #[trigger] split@[k]@ == sp[k],
            dot@ == "."@,
            keys_view(parts@) == named_parts(sp.take(i as int)),
        decreases split.len() - i,
    {
        assert(sp.take(i + 1).drop_last() =~= sp.take(i as int));
        assert(sp.take(i + 1).last() == split@[i as int]@);
        if split[i].len() > 0 && !chars_eq(&split[i], &dot) {
            let ghost before = keys_view(parts@);
            let c = slice_chars(&split[i], 0, split[i].len());
            assert(c@ =~= split@[i as int]@);
            parts.push(c);
            assert(keys_view(parts@) =~= before.push(split@[i as int]@));
        }
        i += 1;
    }
    assert(sp.take(sp.len() as int) =~= sp);
    parts
}

/// A relative path kept inside the vault.
pub fn sanitize_rel(rel: &str) -> (r: String)
    ensures
        r@ == sanitize_rel_spec(rel@),
{
    let c = chars_of(rel);
    let stripped = if c.len() >= 2 && ((c[0] >= 'a' && c[0] <= 'z') || (c[0] >= 'A' && c[0] <= 'Z')) && c[1] == ':' {
        let t = slice_chars(&c, 2, c.len());
        assert(t@ =~= c@.skip(2));
        t
    } else {
        c
    };
    assert(stripped@ == without_drive(rel@));
    let parts = name_parts_exec(&stripped);
    let ghost pv = keys_view(parts@);
    let up = chars_of("..");
    let dot = chars_of(".");
    let mut kept: Vec<Vec<char>> = Vec::new();
    let mut i: usize = 0;
    assert(pv.take(0) =~= Seq::<Seq<char>>::empty());
    while i < parts.len()
        invariant
            0 <= i <= parts@.len(),
            pv == keys_view(parts@),
            up@ == ".."@,
            dot@ == "."@,
            keys_view(kept@) == safe_parts(pv.take(i as int)),
        decreases parts.len() - i,
    {
        assert(pv.take(i + 1).drop_last() =~= pv.take(i as int));
        assert(pv.take(i + 1).last() == parts@[i as int]@);
        if !chars_eq(&parts[i], &up) {
            let ghost before = keys_view(kept@);
            let a = slice_chars(&parts[i], 0, parts[i].len());
            assert(a@ =~= parts@[i as int]@);
            kept.push(a);
            assert(keys_view(kept@) =~= before.push(parts@[i as int]@));
        }
        i += 1;
    }
    assert(pv.take(pv.len() as int) =~= pv);
    string_of(&join_exec(&kept, &chars_of("/")))
}

/// `Path::extension` of a path: what follows the last `.`
/// of its last name, unless that `.` starts the name.
pub open spec fn extension_spec(p: Seq<char>) -> Option<Seq<char>> {
    let parts = path_parts(p);
    if parts.len() == 0 || parts.last() == ".."@ {
        None
    } else {
        let name = parts.last();
        match last_dot(name) {
            Some(i) => if i == 0 {
                None
            } else {
                Some(name.skip(i + 1))
            },
            None => None,
        }
    }
}

/// A Markdown file: its extension, in lower case, is `md`, `markdown` or
/// `mdx`.
pub open spec fn is_markdown_spec(p: Seq<char>) -> bool {
    match extension_spec(p) {
        Some(e) => {
            let l = ascii_lower_seq(e);
            l == "md"@ || l == "markdown"@ || l == "mdx"@
        },
        None => false,
    }
}

fn last_dot_exec(s: &Vec<char>) -> (r: Option<usize>)
    ensures
        match r {
            Some(i) => last_dot(s@) == Some(i as int) && i < s@.len(),
            None => last_dot(s@) is None,
        },
{
    let mut i = s.len();
    assert(s@.take(i as int) =~= s@);
    while i > 0
        invariant
            i <= s@.len(),
            last_dot(s@) == last_dot(s@.take(i as int)),
        decreases i,
    {
        assert(s@.take(i as int).last() == s@[i - 1]);
        if s[i - 1] == '.' {
            return Some(i - 1);
        }
        assert(s@.take(i as int).drop_last() =~= s@.take(i - 1));
        i -= 1;
    }
    None
}

/// The extension of a path.
pub fn extension(p: &str) -> (r: Option<String>)
    ensures
        match r {
            Some(e) => extension_spec(p@) == Some(e@),
            None => extension_spec(p@) is None,
        },
{
    let parts = name_parts_exec(&chars_of(p));
    if parts.len() == 0 || chars_eq(&parts[parts.len() - 1], &chars_of("..")) {
        return None;
    }
    let name = &parts[parts.len() - 1];
    assert(keys_view(parts@).last() == name@);
    match last_dot_exec(name) {
        Some(i) => if i == 0 {
            None
        } else {
            assert(i < name.len());
            let e = slice_chars(name, i + 1, name.len());
            assert(e@ =~= name@.skip(i + 1));
            Some(string_of(&e))
        },
        None => None,
    }
}

/// Whether a path names a Markdown file.
pub fn is_markdown(p: &str) -> (r: bool)
    ensures
        r == is_markdown_spec(p@),
{
    match extension(p) {
        Some(e) => {
            let l = ascii_lower_exec(&chars_of(e.as_str()));
            chars_eq(&l, &chars_of("md")) || chars_eq(&l, &chars_of("markdown")) || chars_eq(
                &l,
                &chars_of("mdx"),
            )
        },
        None => false,
    }
}

/// The folders that are never looked at.
pub open spec fn ignored_name(n: Seq<char>) -> bool {
    n == ".mnesphere"@ || n == ".git"@ || n == "node_modules"@ || n == ".obsidian"@
}

/// A path whose changes are never looked at: a file being written, an
/// Office lock file, a swap file, or anything inside an ignored folder.
pub open spec fn is_ignored_spec(p: Seq<char>) -> bool {
    ||| contains_sub(p, TMP_TAG@)
    ||| contains_sub(p, "~$"@)
    ||| is_suffix(".swp"@, p)
    ||| exists|i: int| 0 <= i < path_parts(p).len() && ignored_name(#[trigger] path_parts(p)[i])
}

/// Whether changes to a path are never looked at.
pub fn is_ignored(p: &str) -> (r: bool)
    ensures
        r == is_ignored_spec(p@),
{
    let s = chars_of(p);
    if contains_chars(&s, &chars_of(TMP_TAG)) || contains_chars(&s, &chars_of("~$")) || ends_with(
        &s,
        &chars_of(".swp"),
    ) {
        return true;
    }
    let parts = name_parts_exec(&s);
    let mut i: usize = 0;
    while i < parts.len()
        invariant
            0 <= i <= parts@.len(),
            keys_view(parts@) == path_parts(p@),
            forall|k: int| 0 <= k < i ==> !ignored_name(#[trigger] path_parts(p@)[k]),
        decreases parts.len() - i,
    {
        let n = &parts[i];
        assert(path_parts(p@)[i as int] == n@);
        if chars_eq(n, &chars_of(".mnesphere")) || chars_eq(n, &chars_of(".git")) || chars_eq(
            n,
            &chars_of("node_modules"),
        ) || chars_eq(n, &chars_of(".obsidian")) {
            return true;
        }
        i += 1;
    }
    false
}

proof fn lemma_split_concat(a: Seq<char>, b: Seq<char>, c: char)
    ensures
        split_char(a + seq![c] + b, c) == split_char(a, c) + split_char(b, c),
    decreases a.len(),
{
    let s = a + seq![c] + b;
    lemma_find_char_from(a, c, 0);
    match find_char_from(a, c, 0) {
        Some(i) => {
            lemma_find_char_from(s, c, 0);
            assert(s[i] == c);
            match find_char_from(s, c, 0) {
                Some(i2) => {
                    if i2 < i {
                        assert(s[i2] == a[i2]);
                    }
                },
                None => {},
            }
            assert(find_char_from(s, c, 0) == Some(i));
            let t = a.skip(i + 1);
            lemma_split_concat(t, b, c);
            assert(s.take(i) =~= a.take(i));
            assert(s.skip(i + 1) =~= t + seq![c] + b);
            assert(split_char(s, c) =~= split_char(a, c) + split_char(b, c));
        },
        None => {
            crate::text::lemma_find_after(a, b, c);
            assert(s.take(a.len() as int) =~= a);
            assert(s.skip(a.len() + 1int) =~= b);
            assert(split_char(a, c) == seq![a]);
            assert(split_char(s, c) =~= split_char(a, c) + split_char(b, c));
        },
    }
}

proof fn lemma_named_parts_concat(x: Seq<Seq<char>>, y: Seq<Seq<char>>)
    ensures
        named_parts(x + y) == named_parts(x) + named_parts(y),
    decreases y.len(),
{
    if y.len() == 0 {
        assert(x + y =~= x);
        assert(named_parts(x) + named_parts(y) =~= named_parts(x));
    } else {
        lemma_named_parts_concat(x, y.drop_last());
        assert((x + y).drop_last() =~= x + y.drop_last());
        assert((x + y).last() == y.last());
        assert(named_parts(x + y) =~= named_parts(x) + named_parts(y));
    }
}

/// A path under `p`: its parts are those of `p`, then those of `q`.
proof fn lemma_path_parts_under(p: Seq<char>, q: Seq<char>)
    ensures
        path_parts(p + "/"@ + q) == path_parts(p) + path_parts(q),
{
    reveal_strlit("/");
    let sp = crate::index::slashed(p);
    let sq = crate::index::slashed(q);
    assert(crate::index::slashed(p + "/"@ + q) =~= sp + seq!['/'] + sq);
    lemma_split_concat(sp, sq, '/');
    lemma_named_parts_concat(split_char(sp, '/'), split_char(sq, '/'));
}

/// Everything under an ignored folder, or under a path that is being
/// written or locked, is ignored too.
pub proof fn law_under_ignored_is_ignored(p: Seq<char>, q: Seq<char>)
    requires
        (exists|i: int| 0 <= i < path_parts(p).len() && ignored_name(#[trigger] path_parts(p)[i]))
            || contains_sub(p, TMP_TAG@) || contains_sub(p, "~$"@),
    ensures
        is_ignored_spec(p + "/"@ + q),
{
    let r = p + "/"@ + q;
    lemma_path_parts_under(p, q);
    if exists|i: int| 0 <= i < path_parts(p).len() && ignored_name(#[trigger] path_parts(p)[i]) {
        let i = choose|i: int| 0 <= i < path_parts(p).len() && ignored_name(#[trigger] path_parts(p)[i]);
        assert(path_parts(r)[i] == path_parts(p)[i]);
    } else if contains_sub(p, TMP_TAG@) {
        let i = choose|i: int| crate::text::occurs_at(p, TMP_TAG@, i);
        assert(r.subrange(i, i + TMP_TAG@.len()) =~= p.subrange(i, i + TMP_TAG@.len()));
        assert(crate::text::occurs_at(r, TMP_TAG@, i));
    } else {
        let i = choose|i: int| crate::text::occurs_at(p, "~$"@, i);
        assert(r.subrange(i, i + "~$"@.len()) =~= p.subrange(i, i + "~$"@.len()));
        assert(crate::text::occurs_at(r, "~$"@, i));
    }
}

// ───────────────────────── images ─────────────────────────

pub open spec fn starts_with_bytes(b: Seq<u8>, p: Seq<u8>) -> bool {
    p.len() <= b.len() && b.take(p.len() as int) == p
}

/// The kind of image the bytes are, by their first bytes (not by what the
/// sender says they are): png, jpg, gif, bmp or webp.
pub open spec fn image_kind(b: Seq<u8>) -> Option<Seq<char>> {
    if starts_with_bytes(b, seq![0x89u8, 0x50u8, 0x4Eu8, 0x47u8, 0x0Du8, 0x0Au8, 0x1Au8, 0x0Au8]) {
        Some("png"@)
    } else if starts_with_bytes(b, seq![0xFFu8, 0xD8u8, 0xFFu8]) {
        Some("jpg"@)
    } else if starts_with_bytes(b, seq![0x47u8, 0x49u8, 0x46u8, 0x38u8, 0x37u8, 0x61u8])
        || starts_with_bytes(b, seq![0x47u8, 0x49u8, 0x46u8, 0x38u8, 0x39u8, 0x61u8]) {
        Some("gif"@)
    } else if starts_with_bytes(b, seq![0x42u8, 0x4Du8]) {
        Some("bmp"@)
    } else if b.len() >= 12 && starts_with_bytes(b, seq![0x52u8, 0x49u8, 0x46u8, 0x46u8])
        && b.subrange(8, 12) == seq![0x57u8, 0x45u8, 0x42u8, 0x50u8] {
        Some("webp"@)
    } else {
        None
    }
}

fn bytes_at(b: &[u8], at: usize, p: &[u8]) -> (r: bool)
    ensures
        r == (at + p@.len() <= b@.len() && b@.subrange(at as int, at + p@.len()) == p@),
{
    if at > b.len() || b.len() - at < p.len() {
        return false;
    }
    let mut i: usize = 0;
    while i < p.len()
        invariant
            0 <= i <= p@.len(),
            at + p.len() <= b.len(),
            forall|k: int| 0 <= k < i ==> b@[at + k] == p@[k],
        decreases p.len() - i,
    {
        if b[at + i] != p[i] {
            assert(b@.subrange(at as int, at + p@.len())[i as int] != p@[i as int]);
            return false;
        }
        i += 1;
    }
    assert(b@.subrange(at as int, at + p@.len()) =~= p@);
    true
}

/// The kind of image the bytes are, by their first bytes.
pub fn sniff_image_ext(b: &[u8]) -> (r: Option<&'static str>)
    ensures
        match r {
            Some(e) => image_kind(b@) == Some(e@),
            None => image_kind(b@) is None,
        },
{
    let png: [u8; 8] = [0x89, 0x50, 0x4E, 0x47, 0x0D, 0x0A, 0x1A, 0x0A];
    let jpg: [u8; 3] = [0xFF, 0xD8, 0xFF];
    let gif7: [u8; 6] = [0x47, 0x49, 0x46, 0x38, 0x37, 0x61];
    let gif9: [u8; 6] = [0x47, 0x49, 0x46, 0x38, 0x39, 0x61];
    let bmp: [u8; 2] = [0x42, 0x4D];
    let riff: [u8; 4] = [0x52, 0x49, 0x46, 0x46];
    let webp: [u8; 4] = [0x57, 0x45, 0x42, 0x50];
    assert(png@ =~= seq![0x89u8, 0x50u8, 0x4Eu8, 0x47u8, 0x0Du8, 0x0Au8, 0x1Au8, 0x0Au8]);
    assert(jpg@ =~= seq![0xFFu8, 0xD8u8, 0xFFu8]);
    assert(gif7@ =~= seq![0x47u8, 0x49u8, 0x46u8, 0x38u8, 0x37u8, 0x61u8]);
    assert(gif9@ =~= seq![0x47u8, 0x49u8, 0x46u8, 0x38u8, 0x39u8, 0x61u8]);
    assert(bmp@ =~= seq![0x42u8, 0x4Du8]);
    assert(riff@ =~= seq![0x52u8, 0x49u8, 0x46u8, 0x46u8]);
    assert(webp@ =~= seq![0x57u8, 0x45u8, 0x42u8, 0x50u8]);
    assert forall|p: Seq<u8>| p.len() <= b@.len() ==> b@.subrange(0, p.len() as int) == b@.take(p.len() as int) by {
        assert(b@.subrange(0, p.len() as int) =~= b@.take(p.len() as int));
    }
    if bytes_at(b, 0, &png) {
        Some("png")
    } else if bytes_at(b, 0, &jpg) {
        Some("jpg")
    } else if bytes_at(b, 0, &gif7) || bytes_at(b, 0, &gif9) {
        Some("gif")
    } else if bytes_at(b, 0, &bmp) {
        Some("bmp")
    } else if b.len() >= 12 && bytes_at(b, 0, &riff) && bytes_at(b, 8, &webp) {
        Some("webp")
    } else {
        None
    }
}

/// Why a pasted image cannot be kept.
#[derive(Clone, Copy, Debug, PartialEq, Eq, Structural)]
pub enum PasteError {
    /// nothing was pasted
    Empty,
    /// over the size limit (the size, in bytes)
    TooLarge(usize),
    /// the bytes are no image this app knows
    NotImage,
}

/// What a paste of `b` is: the kind of image, or why it cannot be kept.
pub fn check_paste(b: &[u8]) -> (r: Result<&'static str, PasteError>)
    ensures
        b@.len() == 0 ==> r == Err::<&'static str, PasteError>(PasteError::Empty),
        0 < b@.len() && b@.len() > MAX_PASTE_BYTES ==> r == Err::<&'static str, PasteError>(
            PasteError::TooLarge(b@.len() as usize),
        ),
        0 < b@.len() <= MAX_PASTE_BYTES ==> match r {
            Ok(e) => image_kind(b@) == Some(e@),
            Err(e) => e == PasteError::NotImage && image_kind(b@) is None,
        },
{
    if b.len() == 0 {
        return Err(PasteError::Empty);
    }
    if b.len() > MAX_PASTE_BYTES {
        return Err(PasteError::TooLarge(b.len()));
    }
    match sniff_image_ext(b) {
        Some(e) => Ok(e),
        None => Err(PasteError::NotImage),
    }
}

// ───────────────────────── links out, attachments ─────────────────────────

/// A link may be opened outside the app only when, trimmed, it is
/// `http://`, `https://` or `mailto:`.
pub open spec fn external_ok(url: Seq<char>) -> bool {
    let u = trim(url);
    is_prefix("http://"@, u) || is_prefix("https://"@, u) || is_prefix("mailto:"@, u)
}

/// The link to open, trimmed, or why it may not be opened.
pub fn external_url(url: &str) -> (r: Result<String, String>)
    ensures
        match r {
            Ok(u) => external_ok(url@) && u@ == trim(url@),
            Err(e) => !external_ok(url@) && e@ == "只允许打开 http / https / mailto 链接"@,
        },
{
    let u = trim_exec(&chars_of(url));
    if starts_with(&u, &chars_of("http://")) || starts_with(&u, &chars_of("https://")) || starts_with(
        &u,
        &chars_of("mailto:"),
    ) {
        Ok(string_of(&u))
    } else {
        Err("只允许打开 http / https / mailto 链接".to_owned())
    }
}

/// A file name split at its last `.`: the name before it, and the `.` with
/// what follows; the whole name and nothing when it has no `.`.
pub open spec fn split_name_spec(name: Seq<char>) -> (Seq<char>, Seq<char>) {
    match last_dot(name) {
        Some(i) => (name.take(i), name.skip(i)),
        None => (name, ""@),
    }
}

/// A file name split at its last `.`.
pub fn split_file_name(name: &str) -> (r: (String, String))
    ensures
        (r.0@, r.1@) == split_name_spec(name@),
{
    let n = chars_of(name);
    match last_dot_exec(&n) {
        Some(i) => {
            let a = slice_chars(&n, 0, i);
            let b = slice_chars(&n, i, n.len());
            assert(a@ =~= n@.take(i as int));
            assert(b@ =~= n@.skip(i as int));
            (string_of(&a), string_of(&b))
        },
        None => {
            proof {
                reveal_strlit("");
            }
            (name.to_owned(), String::new())
        },
    }
}

/// The `n`-th place tried for an attachment: `dir/stem.ext`, then
/// `dir/stem-1.ext`, `dir/stem-2.ext`, ….
pub open spec fn candidate_spec(dir: Seq<char>, stem: Seq<char>, ext: Seq<char>, n: nat) -> Seq<char> {
    if n == 0 {
        dir + "/"@ + stem + ext
    } else {
        dir + "/"@ + stem + "-"@ + crate::text::dec(n) + ext
    }
}

/// The `n`-th place tried for a file named `stem` + `ext` in `dir`.
pub fn candidate(dir: &str, stem: &str, ext: &str, n: usize) -> (r: String)
    ensures
        r@ == candidate_spec(dir@, stem@, ext@, n as nat),
{
    let mut out = chars_of(dir);
    push_all(&mut out, &chars_of("/"));
    push_all(&mut out, &chars_of(stem));
    if n > 0 {
        push_all(&mut out, &chars_of("-"));
        push_all(&mut out, &fmt_usize(n));
    }
    push_all(&mut out, &chars_of(ext));
    string_of(&out)
}

} // verus!
