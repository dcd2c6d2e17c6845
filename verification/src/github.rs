//! Talking to GitHub: the repository address a user types, the paths a
//! remote tree may hand us, blob hashes, and the texts shown for errors.

use vstd::prelude::*;
use crate::text::{
    is_suffix, chars_eq, chars_of, contains_char, find_char_from, is_prefix, lemma_find_char_from, push_all,
    replace_char, replace_char_exec, slice_chars, split_char, split_char_exec, split_once,
    split_once_exec, starts_with, string_of, trim, trim_end_chars, trim_end_chars_exec,
    trim_end_str, trim_end_str_exec, trim_exec,
};

verus! {

// ───────────────────────── repository address ─────────────────────────

/// The non-empty pieces of `s` between slashes.
pub open spec fn nonempty_pieces(ps: Seq<Seq<char>>) -> Seq<Seq<char>> {
    ps.filter(|p: Seq<char>| p.len() > 0)
}

/// The address with its scheme and host taken off.
pub open spec fn strip_host(s: Seq<char>) -> Seq<char> {
    if is_prefix("git@"@, s) {
        match split_once(s.skip(4), ':') {
            Some((_, path)) => path,
            None => s,
        }
    } else {
        let s1 = if is_prefix("https://"@, s) {
            s.skip(8)
        } else if is_prefix("http://"@, s) {
            s.skip(7)
        } else if is_prefix("ssh://"@, s) {
            s.skip(6)
        } else {
            s
        };
        match split_once(s1, '/') {
            Some((host, rest)) => if host.contains('.') || host.contains('@') {
                rest
            } else {
                s1
            },
            None => s1,
        }
    }
}

/// `owner/repo`, from any of the ways a user may write a repository:
/// `https://github.com/owner/repo(.git)`, `git@github.com:owner/repo.git`,
/// `ssh://git@github.com/owner/repo`, `github.com/owner/repo`, `owner/repo`.
pub open spec fn repo_spec(input: Seq<char>) -> Result<Seq<char>, Seq<char>> {
    let s = trim(input);
    if s.len() == 0 {
        Err("还没有填仓库地址"@)
    } else {
        let t = trim_end_str(trim_end_chars(strip_host(s), seq!['/']), ".git"@);
        let parts = nonempty_pieces(split_char(t, '/'));
        if parts.len() != 2 {
            Err("仓库要写成 `owner/repo` 的形式（也可以直接粘 GitHub 网址）。当前填的是："@ + input)
        } else {
            Ok(parts[0] + "/"@ + parts[1])
        }
    }
}

fn strip_host_exec(s: &[char]) -> (r: Vec<char>)
    ensures
        r@ == strip_host(s@),
{
    let git = chars_of("git@");
    proof {
        reveal_strlit("git@");
    }
    if starts_with(s, &git) {
        let rest = slice_chars(s, 4, s.len());
        assert(rest@ =~= s@.skip(4));
        match split_once_exec(&rest, ':') {
            Some((_, path)) => path,
            None => slice_chars(s, 0, s.len()),
        }
    } else {
        let https = chars_of("https://");
        let http = chars_of("http://");
        let ssh = chars_of("ssh://");
        proof {
            reveal_strlit("https://");
            reveal_strlit("http://");
            reveal_strlit("ssh://");
        }
        let s1 = if starts_with(s, &https) {
            slice_chars(s, 8, s.len())
        } else if starts_with(s, &http) {
            slice_chars(s, 7, s.len())
        } else if starts_with(s, &ssh) {
            slice_chars(s, 6, s.len())
        } else {
            slice_chars(s, 0, s.len())
        };
        assert(s1@ =~= (if is_prefix("https://"@, s@) {
            s@.skip(8)
        } else if is_prefix("http://"@, s@) {
            s@.skip(7)
        } else if is_prefix("ssh://"@, s@) {
            s@.skip(6)
        } else {
            s@
        }));
        match split_once_exec(&s1, '/') {
            Some((host, rest)) => {
                if contains_char(&host, '.') || contains_char(&host, '@') {
                    rest
                } else {
                    s1
                }
            },
            None => s1,
        }
    }
}

/// Normalises a repository address to `owner/repo`.
pub fn normalize_repo(input: &str) -> (r: Result<String, String>)
    ensures
        match r {
            Ok(v) => repo_spec(input@) == Ok::<Seq<char>, Seq<char>>(v@),
            Err(e) => repo_spec(input@) == Err::<Seq<char>, Seq<char>>(e@),
        },
{
    let raw = chars_of(input);
    let s = trim_exec(&raw);
    if s.len() == 0 {
        let e = chars_of("还没有填仓库地址");
        return Err(string_of(&e));
    }
    let h = strip_host_exec(&s);
    let slash = vec!['/'];
    assert(slash@ =~= seq!['/']);
    let t1 = trim_end_chars_exec(&h, &slash);
    let dotgit = chars_of(".git");
    let t = trim_end_str_exec(&t1, &dotgit);
    let pieces = split_char_exec(&t, '/');
    let ghost all = split_char(t@, '/');
    let mut parts: Vec<Vec<char>> = Vec::new();
    let mut i: usize = 0;
    while i < pieces.len()
        invariant
            0 <= i <= pieces@.len(),
            pieces@.len() == all.len(),
            forall|k: int| 0 <= k < pieces@.len() ==> #[trigger] pieces@[k]@ == all[k],
            parts@.len() == nonempty_pieces(all.take(i as int)).len(),
            forall|k: int|
                0 <= k < parts@.len() ==> #[trigger] parts@[k]@ == nonempty_pieces(
                    all.take(i as int),
                )[k],
        decreases pieces.len() - i,
    {
        proof {
            assert(all.take(i + 1).drop_last() =~= all.take(i as int));
            reveal(Seq::filter);
        }
        if pieces[i].len() > 0 {
            let p = slice_chars(&pieces[i], 0, pieces[i].len());
            assert(p@ =~= pieces@[i as int]@);
            parts.push(p);
        }
        i += 1;
    }
    assert(all.take(pieces@.len() as int) =~= all);
    if parts.len() != 2 {
        let mut e = chars_of("仓库要写成 `owner/repo` 的形式（也可以直接粘 GitHub 网址）。当前填的是：");
        push_all(&mut e, &raw);
        return Err(string_of(&e));
    }
    let mut out = slice_chars(&parts[0], 0, parts[0].len());
    assert(out@ =~= parts@[0]@);
    let sl = chars_of("/");
    push_all(&mut out, &sl);
    push_all(&mut out, &parts[1]);
    Ok(string_of(&out))
}

// ───────────────────────── paths from a remote tree ─────────────────────────

/// A path starts with a drive letter when its second byte is `:`; the
/// second byte can only be `:` when the first character is one byte long.
pub open spec fn drive_prefixed(p: Seq<char>) -> bool {
    p.len() >= 2 && (p[0] as u32) < 128 && p[1] == ':'
}

/// A piece of a path that may not appear in a safe one.
pub open spec fn bad_segment(s: Seq<char>) -> bool {
    s.len() == 0 || s == "."@ || s == ".."@
}

/// A path from the remote tree, if it is safe to write under the vault:
/// not empty, not the seed file, no NUL, relative, no drive letter, and no
/// empty, `.` or `..` segment. Backslashes become slashes.
pub open spec fn safe_rel_spec(p: Seq<char>) -> Option<Seq<char>> {
    let norm = replace_char(p, '\\', '/');
    if p.len() == 0 || p == ".mnesphere-seed"@ || p.contains('\0') {
        None
    } else if norm.len() > 0 && norm[0] == '/' {
        None
    } else if drive_prefixed(norm) {
        None
    } else if exists|i: int|
        0 <= i < split_char(norm, '/').len() && bad_segment(#[trigger] split_char(norm, '/')[i]) {
        None
    } else {
        Some(norm)
    }
}

/// Treats a path from a remote tree as untrusted input: `None` when it is
/// not a plain relative path under the vault.
pub fn safe_rel_path(p: &str) -> (r: Option<String>)
    ensures
        match r {
            Some(v) => safe_rel_spec(p@) == Some(v@),
            None => safe_rel_spec(p@) is None,
        },
{
    let raw = chars_of(p);
    let seed = chars_of(".mnesphere-seed");
    let dot = chars_of(".");
    let dotdot = chars_of("..");
    if raw.len() == 0 || chars_eq(&raw, &seed) || contains_char(&raw, '\0') {
        return None;
    }
    let norm = replace_char_exec(&raw, '\\', '/');
    if norm.len() > 0 && norm[0] == '/' {
        return None;
    }
    if norm.len() >= 2 && (norm[0] as u32) < 128 && norm[1] == ':' {
        return None;
    }
    let segs = split_char_exec(&norm, '/');
    let mut i: usize = 0;
    while i < segs.len()
        invariant
            0 <= i <= segs@.len(),
            segs@.len() == split_char(norm@, '/').len(),
            forall|k: int| 0 <= k < segs@.len() ==> #[trigger] segs@[k]@ == split_char(norm@, '/')[k],
            dot@ == "."@,
            dotdot@ == ".."@,
            norm@ == replace_char(p@, '\\', '/'),
            !(p@.len() == 0 || p@ == ".mnesphere-seed"@ || p@.contains('\0')),
            !(norm@.len() > 0 && norm@[0] == '/'),
            !drive_prefixed(norm@),
            forall|k: int| 0 <= k < i ==> !bad_segment(#[trigger] split_char(norm@, '/')[k]),
        decreases segs.len() - i,
    {
        if segs[i].len() == 0 || chars_eq(&segs[i], &dot) || chars_eq(&segs[i], &dotdot) {
            assert(bad_segment(split_char(norm@, '/')[i as int]));
            assert(exists|k: int|
                0 <= k < split_char(norm@, '/').len() && bad_segment(
                    #[trigger] split_char(norm@, '/')[k],
                ));
            return None;
        }
        i += 1;
    }
    Some(string_of(&norm))
}


// ───────────────────────── blob hashes ─────────────────────────

/// SHA-1 of some bytes, as the sha1 crate computes it.
pub uninterp spec fn sha1_of(data: Seq<u8>) -> Seq<u8>;

/// The sha1 crate's `Sha1::digest`; claims that the result is the named
/// function of the bytes, and that it has 20 bytes (the crate's output
/// size).
#[verifier::external_body]
fn sha1_digest(data: &[u8]) -> (r: Vec<u8>)
    ensures
        r@ == sha1_of(data@),
        r@.len() == 20,
{
    <sha1::Sha1 as sha1::Digest>::digest(data).to_vec()
}

/// The bytes of an ASCII text.
pub open spec fn ascii_bytes(s: Seq<char>) -> Seq<u8> {
    s.map_values(|c: char| c as u8)
}

/// What git hashes for a blob: `blob <length>`, a zero byte, the content.
pub open spec fn git_blob(data: Seq<u8>) -> Seq<u8> {
    ascii_bytes("blob "@ + crate::text::dec(data.len())) + seq![0u8] + data
}

pub open spec fn hex_digit(d: nat) -> char {
    if d < 10 {
        (48 + d) as char
    } else {
        (87 + d) as char
    }
}

/// Bytes as lower-case hexadecimal, two digits each.
pub open spec fn hex(b: Seq<u8>) -> Seq<char>
    decreases b.len(),
{
    if b.len() == 0 {
        seq![]
    } else {
        hex(b.drop_last()) + seq![hex_digit((b.last() / 16) as nat), hex_digit((b.last() % 16) as nat)]
    }
}

fn hex_digit_exec(d: u8) -> (c: char)
    requires
        d < 16,
    ensures
        c == hex_digit(d as nat),
{
    if d < 10 {
        crate::text::char_from_u32_ascii(48 + d as u32)
    } else {
        crate::text::char_from_u32_ascii(87 + d as u32)
    }
}

/// Git's own hash of a file's content: the SHA-1 of its blob, in
/// hexadecimal.
pub fn blob_sha(data: &[u8]) -> (r: String)
    ensures
        r@ == hex(sha1_of(git_blob(data@))),
{
    let mut head = chars_of("blob ");
    push_all(&mut head, &crate::text::fmt_usize(data.len()));
    let ghost hv = head@;
    let mut bytes: Vec<u8> = Vec::new();
    let mut i: usize = 0;
    while i < head.len()
        invariant
            0 <= i <= head@.len(),
            hv == head@,
            hv == "blob "@ + crate::text::dec(data@.len()),
            bytes@ == ascii_bytes(hv.take(i as int)),
        decreases head.len() - i,
    {
        let c = head[i];
        bytes.push(c as u8);
        assert(ascii_bytes(hv.take(i + 1)) =~= ascii_bytes(hv.take(i as int)).push(c as u8));
        i += 1;
    }
    assert(hv.take(hv.len() as int) =~= hv);
    bytes.push(0u8);
    let mut j: usize = 0;
    let ghost pre = bytes@;
    while j < data.len()
        invariant
            0 <= j <= data@.len(),
            bytes@ == pre + data@.take(j as int),
        decreases data.len() - j,
    {
        bytes.push(data[j]);
        assert(data@.take(j + 1) =~= data@.take(j as int).push(data@[j as int]));
        j += 1;
    }
    assert(data@.take(data@.len() as int) =~= data@);
    assert(bytes@ =~= git_blob(data@));
    let digest = sha1_digest(&bytes);
    let mut out: Vec<char> = Vec::new();
    let mut k: usize = 0;
    assert(digest@.take(0) =~= Seq::<u8>::empty());
    while k < digest.len()
        invariant
            0 <= k <= digest@.len(),
            out@ == hex(digest@.take(k as int)),
        decreases digest.len() - k,
    {
        let b = digest[k];
        out.push(hex_digit_exec(b / 16));
        out.push(hex_digit_exec(b % 16));
        assert(digest@.take(k + 1).drop_last() =~= digest@.take(k as int));
        assert(out@ =~= hex(digest@.take(k + 1)));
        k += 1;
    }
    assert(digest@.take(digest@.len() as int) =~= digest@);
    string_of(&out)
}

// ───────────────────────── error texts ─────────────────────────

/// The `message` string of a JSON body, as serde_json reads it.
pub uninterp spec fn json_message(body: Seq<char>) -> Option<Seq<char>>;

/// Reads a body with `serde_json::from_str` and gives its `message`
/// (`Value::as_str`); claims only that the result is the named function of
/// the text.
#[verifier::external_body]
fn read_json_message(body: &str) -> (r: Option<String>)
    ensures
        crate::ai::opt_str(r) == json_message(body@),
{
    match serde_json::from_str::<serde_json::Value>(body) {
        Ok(v) => v["message"].as_str().map(str::to_string),
        Err(_) => None,
    }
}

/// What the user is told about a failed GitHub request with status `code`
/// (`status` as HTTP writes it): what the common codes mean, then
/// GitHub's message, or the first 300 characters of the body.
pub open spec fn gh_error_spec(code: u16, status: Seq<char>, body: Seq<char>) -> Seq<char> {
    let msg = match json_message(body) {
        Some(m) => m,
        None => body.take(if body.len() < 300 { body.len() as int } else { 300 }),
    };
    if code == 401 {
        "认证失败（401）：Token 无效或已过期。\n去「仓库配置」里换一个新的 Token。\n"@ + msg
    } else if code == 403 {
        "权限不足或被限流（403）：确认 Token 勾了 repo 权限，且没超出调用上限。\n"@ + msg
    } else if code == 404 {
        "找不到（404）：确认 `owner/repo` 拼写正确、且 Token 对它有权限。\n"@ + msg
    } else if code == 409 {
        "冲突（409）："@ + msg
    } else if code == 422 {
        "请求被拒绝（422）："@ + msg
    } else {
        "GitHub 返回 "@ + status + "："@ + msg
    }
}

/// What the user is told about a failed GitHub request.
pub fn gh_error(code: u16, status: &str, body: &str) -> (r: String)
    ensures
        r@ == gh_error_spec(code, status@, body@),
{
    let msg = match read_json_message(body) {
        Some(m) => chars_of(m.as_str()),
        None => {
            let b = chars_of(body);
            let n = if b.len() < 300 { b.len() } else { 300 };
            slice_chars(&b, 0, n)
        },
    };
    let mut out = if code == 401 {
        chars_of("认证失败（401）：Token 无效或已过期。\n去「仓库配置」里换一个新的 Token。\n")
    } else if code == 403 {
        chars_of("权限不足或被限流（403）：确认 Token 勾了 repo 权限，且没超出调用上限。\n")
    } else if code == 404 {
        chars_of("找不到（404）：确认 `owner/repo` 拼写正确、且 Token 对它有权限。\n")
    } else if code == 409 {
        chars_of("冲突（409）：")
    } else if code == 422 {
        chars_of("请求被拒绝（422）：")
    } else {
        let mut o = chars_of("GitHub 返回 ");
        push_all(&mut o, &chars_of(status));
        push_all(&mut o, &chars_of("："));
        o
    };
    push_all(&mut out, &msg);
    string_of(&out)
}

// ───────────────────────── a new repository ─────────────────────────

pub open spec fn repo_name_char(c: char) -> bool {
    ('a' <= c && c <= 'z') || ('A' <= c && c <= 'Z') || ('0' <= c && c <= '9') || c == '-' || c
        == '_' || c == '.'
}

/// The name of a repository to create (trimmed, without `.git`), or why
/// GitHub would refuse it.
pub open spec fn repo_name_spec(name: Seq<char>) -> Result<Seq<char>, Seq<char>> {
    let n = trim_end_str(trim(name), ".git"@);
    if n.len() == 0 {
        Err("仓库名不能为空"@)
    } else if n[0] == '.' {
        Err("仓库名不能以 `.` 开头"@)
    } else if !(forall|i: int| 0 <= i < n.len() ==> repo_name_char(#[trigger] n[i])) {
        Err("仓库名只能用字母、数字、`-`、`_`、`.`（GitHub 的限制）"@)
    } else {
        Ok(n)
    }
}

/// The name of a repository to create, or why GitHub would refuse it.
pub fn repo_name(name: &str) -> (r: Result<String, String>)
    ensures
        match r {
            Ok(n) => repo_name_spec(name@) == Ok::<Seq<char>, Seq<char>>(n@),
            Err(e) => repo_name_spec(name@) == Err::<Seq<char>, Seq<char>>(e@),
        },
{
    let n = trim_end_str_exec(&trim_exec(&chars_of(name)), &chars_of(".git"));
    if n.len() == 0 {
        return Err("仓库名不能为空".to_owned());
    }
    if n[0] == '.' {
        return Err("仓库名不能以 `.` 开头".to_owned());
    }
    let mut i: usize = 0;
    while i < n.len()
        invariant
            0 <= i <= n@.len(),
            n@ == trim_end_str(trim(name@), ".git"@),
            n@.len() > 0,
            n@[0] != '.',
            forall|k: int| 0 <= k < i ==> repo_name_char(#[trigger] n@[k]),
        decreases n.len() - i,
    {
        let c = n[i];
        if !(('a' <= c && c <= 'z') || ('A' <= c && c <= 'Z') || ('0' <= c && c <= '9') || c == '-'
            || c == '_' || c == '.') {
            assert(!repo_name_char(n@[i as int]));
            return Err("仓库名只能用字母、数字、`-`、`_`、`.`（GitHub 的限制）".to_owned());
        }
        i += 1;
    }
    Ok(string_of(&n))
}

/// The branch to check: the one given, unless blank, else the
/// repository's default.
pub fn test_branch(branch: Option<String>, default_branch: &str) -> (r: String)
    ensures
        r@ == (match branch {
            Some(b) => if trim(b@).len() > 0 {
                b@
            } else {
                default_branch@
            },
            None => default_branch@,
        }),
{
    match branch {
        Some(b) => if trim_exec(&chars_of(b.as_str())).len() > 0 {
            b
        } else {
            default_branch.to_owned()
        },
        None => default_branch.to_owned(),
    }
}

/// The token's scopes from the `x-oauth-scopes` header: its pieces
/// between commas, trimmed, without empty ones.
pub open spec fn scopes_spec(pieces: Seq<Seq<char>>) -> Seq<Seq<char>>
    decreases pieces.len(),
{
    if pieces.len() == 0 {
        seq![]
    } else {
        let rest = scopes_spec(pieces.drop_last());
        let t = trim(pieces.last());
        if t.len() > 0 {
            rest.push(t)
        } else {
            rest
        }
    }
}

/// The token's scopes from the `x-oauth-scopes` header (none without it).
pub fn parse_scopes(header: Option<String>) -> (r: Vec<String>)
    ensures
        crate::text::strs(r@) == (match header {
            Some(h) => scopes_spec(split_char(h@, ',')),
            None => seq![],
        }),
{
    let mut out: Vec<String> = Vec::new();
    match header {
        None => {
            assert(crate::text::strs(out@) =~= Seq::<Seq<char>>::empty());
            out
        },
        Some(h) => {
            let ps = split_char_exec(&chars_of(h.as_str()), ',');
            let ghost pv = split_char(h@, ',');
            let mut i: usize = 0;
            assert(pv.take(0) =~= Seq::<Seq<char>>::empty());
            while i < ps.len()
                invariant
                    0 <= i <= ps@.len(),
                    ps@.len() == pv.len(),
                    forall|k: int| 0 <= k < ps@.len() ==> #[trigger] ps@[k]@ == pv[k],
                    crate::text::strs(out@) == scopes_spec(pv.take(i as int)),
                decreases ps.len() - i,
            {
                assert(pv.take(i + 1).drop_last() =~= pv.take(i as int));
                assert(pv.take(i + 1).last() == ps@[i as int]@);
                let t = trim_exec(&ps[i]);
                if t.len() > 0 {
                    let ghost before = crate::text::strs(out@);
                    out.push(string_of(&t));
                    assert(crate::text::strs(out@) =~= before.push(t@));
                }
                i += 1;
            }
            assert(pv.take(pv.len() as int) =~= pv);
            out
        },
    }
}

// ───────────────────────── the remote tree ─────────────────────────

/// The largest file synchronised, in bytes.
pub const MAX_FILE: u64 = 10485760;

/// One item of a remote tree as the API lists it: its `type`, `path` and
/// `sha` where they are strings, its `size` where it is a number.
pub type TreeItem = (Option<Seq<char>>, Option<Seq<char>>, Option<Seq<char>>, Option<u64>);

/// What serde_json reads of a recursive tree listing: `truncated` where it
/// is a boolean, and the items of `tree` where it is an array; or
/// serde_json's message where the body is not JSON.
pub uninterp spec fn tree_listing(body: Seq<char>) -> Result<(Option<bool>, Option<Seq<TreeItem>>), Seq<char>>;

pub open spec fn item_view(e: (Option<String>, Option<String>, Option<String>, Option<u64>)) -> TreeItem {
    (crate::ai::opt_str(e.0), crate::ai::opt_str(e.1), crate::ai::opt_str(e.2), e.3)
}

pub open spec fn items_view(v: Seq<(Option<String>, Option<String>, Option<String>, Option<u64>)>) -> Seq<TreeItem> {
    v.map_values(|e: (Option<String>, Option<String>, Option<String>, Option<u64>)| item_view(e))
}

/// Reads a tree listing with `serde_json::from_str`, and each item's fields
/// with indexing, `Value::as_str` and `Value::as_u64`; claims only that the
/// result is the named function of the text.
#[verifier::external_body]
fn read_tree_listing(body: &str) -> (r: Result<(Option<bool>, Option<Vec<(Option<String>, Option<String>, Option<String>, Option<u64>)>>), String>)
    ensures
        match r {
            Ok((t, items)) => tree_listing(body@) == Ok::<(Option<bool>, Option<Seq<TreeItem>>), Seq<char>>((t, match items {
                Some(v) => Some(items_view(v@)),
                None => None,
            })),
            Err(e) => tree_listing(body@) == Err::<(Option<bool>, Option<Seq<TreeItem>>), Seq<char>>(e@),
        },
{
    let v: serde_json::Value = serde_json::from_str(body).map_err(|e| e.to_string())?;
    let s = |x: &serde_json::Value| x.as_str().map(str::to_string);
    let items = v["tree"].as_array().map(|a| a.iter().map(|e| (s(&e["type"]), s(&e["path"]), s(&e["sha"]), e["size"].as_u64())).collect());
    Ok((v["truncated"].as_bool(), items))
}

/// The files of a tree item list worth keeping: blobs whose path is safe
/// and not ignored and whose hash is given; (path, hash, size), in order.
pub open spec fn tree_files(items: Seq<TreeItem>) -> Seq<(Seq<char>, Seq<char>, u64)>
    decreases items.len(),
{
    if items.len() == 0 {
        seq![]
    } else {
        let rest = tree_files(items.drop_last());
        let (kind, path, sha, size) = items.last();
        if kind == Some("blob"@) {
            match path {
                Some(raw) => match safe_rel_spec(raw) {
                    Some(p) => if crate::vault::is_ignored_spec(p) {
                        rest
                    } else {
                        let h = match sha {
                            Some(x) => x,
                            None => ""@,
                        };
                        if h.len() == 0 {
                            rest
                        } else {
                            rest.push((p, h, match size {
                                Some(n) => n,
                                None => 0u64,
                            }))
                        }
                    },
                    None => rest,
                },
                None => rest,
            }
        } else {
            rest
        }
    }
}

/// What a tree listing gives: its files, or why it cannot be used (a body
/// that does not read, or a listing GitHub cut short, which would make
/// files look deleted).
pub open spec fn tree_entries_spec(body: Seq<char>) -> Result<Seq<(Seq<char>, Seq<char>, u64)>, Seq<char>> {
    match tree_listing(body) {
        Err(e) => Err(e),
        Ok((truncated, items)) => if truncated == Some(true) {
            Err("仓库文件太多，GitHub 的树接口把清单截断了，这次同步不安全，已中止。\n告诉我一声，我改成逐层遍历再试。"@)
        } else {
            Ok(match items {
                Some(v) => tree_files(v),
                None => seq![],
            })
        },
    }
}

pub open spec fn files_view(v: Seq<(String, String, u64)>) -> Seq<(Seq<char>, Seq<char>, u64)> {
    v.map_values(|e: (String, String, u64)| (e.0@, e.1@, e.2))
}

/// The files of a remote tree listing (its body as received).
pub fn tree_entries(body: &str) -> (r: Result<Vec<(String, String, u64)>, String>)
    ensures
        match r {
            Ok(v) => tree_entries_spec(body@) == Ok::<Seq<(Seq<char>, Seq<char>, u64)>, Seq<char>>(files_view(v@)),
            Err(e) => tree_entries_spec(body@) == Err::<Seq<(Seq<char>, Seq<char>, u64)>, Seq<char>>(e@),
        },
{
    let (truncated, items) = match read_tree_listing(body) {
        Err(e) => return Err(e),
        Ok(x) => x,
    };
    match truncated {
        Some(true) => {
            return Err("仓库文件太多，GitHub 的树接口把清单截断了，这次同步不安全，已中止。\n告诉我一声，我改成逐层遍历再试。".to_owned());
        },
        _ => {},
    }
    let mut out: Vec<(String, String, u64)> = Vec::new();
    match items {
        None => {
            assert(files_view(out@) =~= Seq::<(Seq<char>, Seq<char>, u64)>::empty());
            Ok(out)
        },
        Some(v) => {
            let ghost iv = items_view(v@);
            let blob = chars_of("blob");
            let mut i: usize = 0;
            assert(iv.take(0) =~= Seq::<TreeItem>::empty());
            while i < v.len()
                invariant
                    0 <= i <= v@.len(),
                    iv == items_view(v@),
                    blob@ == "blob"@,
                    files_view(out@) == tree_files(iv.take(i as int)),
                decreases v.len() - i,
            {
                assert(iv.take(i + 1).drop_last() =~= iv.take(i as int));
                assert(iv.take(i + 1).last() == item_view(v@[i as int]));
                let e = &v[i];
                let is_blob = match &e.0 {
                    Some(k) => chars_eq(&chars_of(k.as_str()), &blob),
                    None => false,
                };
                if is_blob {
                    match &e.1 {
                        Some(raw) => match safe_rel_path(raw.as_str()) {
                            Some(p) => {
                                if !crate::vault::is_ignored(p.as_str()) {
                                    let h = match &e.2 {
                                        Some(x) => x.clone(),
                                        None => {
                                            proof {
                                                reveal_strlit("");
                                            }
                                            String::new()
                                        },
                                    };
                                    if chars_of(h.as_str()).len() > 0 {
                                        let size = match e.3 {
                                            Some(n) => n,
                                            None => 0,
                                        };
                                        let ghost before = files_view(out@);
                                        out.push((p, h, size));
                                        assert(files_view(out@) =~= before.push(files_view(out@).last()));
                                    }
                                }
                            },
                            None => {},
                        },
                        None => {},
                    }
                }
                i += 1;
            }
            assert(iv.take(iv.len() as int) =~= iv);
            Ok(out)
        },
    }
}

// ───────────────────────── local files ─────────────────────────

/// Editors' temporary files, never synchronised: `name~` and `~$name`.
pub open spec fn is_temp_name_spec(name: Seq<char>) -> bool {
    (name.len() > 0 && name.last() == '~') || is_prefix("~$"@, name)
}

/// Whether a file name is an editor's temporary file.
pub fn is_temp_name(name: &str) -> (r: bool)
    ensures
        r == is_temp_name_spec(name@),
{
    let n = chars_of(name);
    (n.len() > 0 && n[n.len() - 1] == '~') || starts_with(&n, &chars_of("~$"))
}

/// The note for a file left out for its size: `rel（N MB，超过 10 MB）`,
/// with `remote` marking the remote copy.
pub open spec fn oversize_note_spec(rel: Seq<char>, size: u64, remote: bool) -> Seq<char> {
    rel + (if remote { "（远端 "@ } else { "（"@ }) + crate::text::dec((size / 1024 / 1024) as nat)
        + " MB，超过 10 MB）"@
}

/// The note for a file left out for its size.
pub fn oversize_note(rel: &str, size: u64, remote: bool) -> (r: String)
    ensures
        r@ == oversize_note_spec(rel@, size, remote),
{
    let mut out = chars_of(rel);
    if remote {
        push_all(&mut out, &chars_of("（远端 "));
    } else {
        push_all(&mut out, &chars_of("（"));
    }
    push_all(&mut out, &crate::text::fmt_u64(size / 1024 / 1024));
    push_all(&mut out, &chars_of(" MB，超过 10 MB）"));
    string_of(&out)
}

/// The `i`-th name tried for the remote copy of a conflicting file:
/// `stem (远端冲突).ext`, then `stem (远端冲突 2).ext`, ….
pub open spec fn conflict_name_spec(stem: Seq<char>, ext: Seq<char>, i: nat) -> Seq<char> {
    if i <= 1 {
        stem + " (远端冲突)"@ + ext
    } else {
        stem + " (远端冲突 "@ + crate::text::dec(i) + ")"@ + ext
    }
}

/// The `i`-th name tried for the remote copy of a conflicting file.
pub fn conflict_name(stem: &str, ext: &str, i: usize) -> (r: String)
    ensures
        r@ == conflict_name_spec(stem@, ext@, i as nat),
{
    let mut out = chars_of(stem);
    if i <= 1 {
        push_all(&mut out, &chars_of(" (远端冲突)"));
    } else {
        push_all(&mut out, &chars_of(" (远端冲突 "));
        push_all(&mut out, &crate::text::fmt_usize(i));
        push_all(&mut out, &chars_of(")"));
    }
    push_all(&mut out, &chars_of(ext));
    string_of(&out)
}

/// The message of the commit a push makes: the user's, or
/// `mnesphere <when> · +<uploaded> -<deleted>`.
pub open spec fn commit_message_spec(message: Option<Seq<char>>, stamp: Seq<char>, pushed: nat, deleted: nat) -> Seq<char> {
    match message {
        Some(m) => m,
        None => "mnesphere "@ + stamp + " · +"@ + crate::text::dec(pushed) + " -"@ + crate::text::dec(deleted),
    }
}

/// The message of the commit a push makes.
pub fn commit_message(message: Option<String>, stamp: &str, pushed: usize, deleted: usize) -> (r: String)
    ensures
        r@ == commit_message_spec(crate::ai::opt_str(message), stamp@, pushed as nat, deleted as nat),
{
    match message {
        Some(m) => m,
        None => {
            let mut out = chars_of("mnesphere ");
            push_all(&mut out, &chars_of(stamp));
            push_all(&mut out, &chars_of(" · +"));
            push_all(&mut out, &crate::text::fmt_usize(pushed));
            push_all(&mut out, &chars_of(" -"));
            push_all(&mut out, &crate::text::fmt_usize(deleted));
            string_of(&out)
        },
    }
}

/// How a push goes, given the remote head: an empty repository is seeded
/// first, the new commit has the head as parent when there is one, and
/// the branch is moved by force only over the seed.
pub fn push_mode(remote_head: &str) -> (r: (bool, bool, bool))
    ensures
        r.0 == (remote_head@.len() == 0),
        r.1 == (remote_head@.len() > 0),
        r.2 == (remote_head@.len() == 0),
{
    let empty = chars_of(remote_head).len() == 0;
    (empty, !empty, empty)
}

/// What GitHub answers a push step with 409 on: the repository is still
/// empty (the seed commit did not take).
pub open spec fn still_empty_text() -> Seq<char> {
    "仓库还是空的 —— 初始化第一个提交没生效，请再点一次同步。"@
}

fn still_empty() -> (r: String)
    ensures
        r@ == still_empty_text(),
{
    string_of(&chars_of("仓库还是空的 —— 初始化第一个提交没生效，请再点一次同步。"))
}

/// The error of a refused blob upload of `rel`: the empty-repository text on
/// 409, else the path and GitHub's own message `gh`.
pub fn upload_refused(status: u16, rel: &str, gh: &str) -> (r: String)
    ensures
        r@ == (if status == 409 {
            still_empty_text()
        } else {
            "上传 "@ + rel@ + " 时出错：\n"@ + gh@
        }),
{
    if status == 409 {
        still_empty()
    } else {
        let mut out = chars_of("上传 ");
        push_all(&mut out, &chars_of(rel));
        push_all(&mut out, &chars_of(" 时出错：\n"));
        push_all(&mut out, &chars_of(gh));
        string_of(&out)
    }
}

/// The error of a refused tree: the empty-repository text on 409, else
/// GitHub's own message `gh`.
pub fn tree_refused(status: u16, gh: &str) -> (r: String)
    ensures
        r@ == (if status == 409 {
            still_empty_text()
        } else {
            gh@
        }),
{
    if status == 409 {
        still_empty()
    } else {
        string_of(&chars_of(gh))
    }
}

/// A hash GitHub answered with: an error with `missing` when it is empty.
pub fn sha_or(sha: &str, missing: &str) -> (r: Result<String, String>)
    ensures
        sha@.len() > 0 ==> (r matches Ok(v) && v@ == sha@),
        sha@.len() == 0 ==> (r matches Err(e) && e@ == missing@),
{
    if chars_of(sha).len() > 0 {
        Ok(string_of(&chars_of(sha)))
    } else {
        Err(string_of(&chars_of(missing)))
    }
}

/// The error when an uploaded blob came back without its hash.
pub fn blob_sha_missing(rel: &str) -> (r: String)
    ensures
        r@ == "上传 "@ + rel@ + " 后没有拿到 blob sha"@,
{
    let mut out = chars_of("上传 ");
    push_all(&mut out, &chars_of(rel));
    push_all(&mut out, &chars_of(" 后没有拿到 blob sha"));
    string_of(&out)
}

/// One entry of the tree a push builds: a path, with the hash of its new
/// blob, or no hash to delete it.
pub struct TreeEntry {
    pub path: String,
    pub sha: Option<String>,
}

pub open spec fn entry_view(e: TreeEntry) -> (Seq<char>, Option<Seq<char>>) {
    (e.path@, crate::ai::opt_str(e.sha))
}

/// The tree a push asks for: the uploaded paths with their blob hashes, in
/// order, then the paths deleted on the remote without a hash; on top of
/// `base_tree` when there is one.
pub fn tree_request(uploaded: &Vec<(String, String)>, deletes: &Vec<String>, base_tree: &str) -> (r: (
    Vec<TreeEntry>,
    Option<String>,
))
    ensures
        r.0@.len() == uploaded@.len() + deletes@.len(),
        forall|i: int| 0 <= i < uploaded@.len() ==> #[trigger] entry_view(r.0@[i]) == (
            uploaded@[i].0@,
            Some(uploaded@[i].1@),
        ),
        forall|i: int| 0 <= i < deletes@.len() ==> #[trigger] entry_view(r.0@[uploaded@.len() + i]) == (
            deletes@[i]@,
            None::<Seq<char>>,
        ),
        base_tree@.len() > 0 ==> (r.1 matches Some(b) && b@ == base_tree@),
        base_tree@.len() == 0 ==> r.1 is None,
{
    let mut out: Vec<TreeEntry> = Vec::new();
    let mut i: usize = 0;
    while i < uploaded.len()
        invariant
            0 <= i <= uploaded@.len(),
            out@.len() == i,
            forall|k: int| 0 <= k < i ==> #[trigger] entry_view(out@[k]) == (uploaded@[k].0@, Some(uploaded@[k].1@)),
        decreases uploaded.len() - i,
    {
        let p = string_of(&chars_of(uploaded[i].0.as_str()));
        let h = string_of(&chars_of(uploaded[i].1.as_str()));
        out.push(TreeEntry { path: p, sha: Some(h) });
        i += 1;
    }
    let mut j: usize = 0;
    while j < deletes.len()
        invariant
            0 <= j <= deletes@.len(),
            out@.len() == uploaded@.len() + j,
            forall|k: int| 0 <= k < uploaded@.len() ==> #[trigger] entry_view(out@[k]) == (uploaded@[k].0@, Some(uploaded@[k].1@)),
            forall|k: int| 0 <= k < j ==> #[trigger] entry_view(out@[uploaded@.len() + k]) == (deletes@[k]@, None::<Seq<char>>),
        decreases deletes.len() - j,
    {
        let p = string_of(&chars_of(deletes[j].as_str()));
        out.push(TreeEntry { path: p, sha: None });
        j += 1;
    }
    let base = if chars_of(base_tree).len() > 0 {
        Some(string_of(&chars_of(base_tree)))
    } else {
        None
    };
    (out, base)
}

/// Whether seeding an empty repository must also create `branch`: the
/// repository's default branch (`main` where it names none) is another.
pub fn seed_needs_branch(default_branch: Option<String>, branch: &str) -> (r: bool)
    ensures
        r == (match default_branch {
            Some(d) => d@ != branch@,
            None => "main"@ != branch@,
        }),
{
    match default_branch {
        Some(d) => !chars_eq(&chars_of(d.as_str()), &chars_of(branch)),
        None => !chars_eq(&chars_of("main"), &chars_of(branch)),
    }
}

// ───────────────────────── status ─────────────────────────

/// The newer of the times seen so far and a file's time.
pub fn newer(acc: Option<u64>, secs: u64) -> (r: Option<u64>)
    ensures
        r == (match acc {
            Some(a) => if secs > a { Some(secs) } else { Some(a) },
            None => Some(secs),
        }),
{
    match acc {
        Some(a) => if secs > a {
            Some(secs)
        } else {
            Some(a)
        },
        None => Some(secs),
    }
}

/// `t` read as a signed 64-bit number (what `t as i64` gives).
pub open spec fn as_signed(t: u64) -> int {
    if t <= 0x7fff_ffff_ffff_ffff {
        t as int
    } else {
        t - 0x1_0000_0000_0000_0000
    }
}

/// The vault changed since the last synchronisation: the newest file is
/// more than a second later than it (the second forgives a write in the
/// same second as the synchronisation).
pub fn is_dirty(newest: Option<u64>, cutoff: Option<i64>) -> (r: bool)
    requires
        cutoff matches Some(c) ==> c < i64::MAX,
    ensures
        r == (match (newest, cutoff) {
            (Some(t), Some(c)) => as_signed(t) > c + 1,
            _ => false,
        }),
{
    match (newest, cutoff) {
        (Some(t), Some(c)) => {
            let ti: i128 = if t <= 0x7fff_ffff_ffff_ffff {
                t as i128
            } else {
                t as i128 - 0x1_0000_0000_0000_0000
            };
            ti > (c as i128) + 1
        },
        _ => false,
    }
}
// ───────────────────────── the forms of a repository address ─────────────────────────

pub open spec fn owner_char(c: char) -> bool {
    crate::unicode::is_ascii_digit(c) || crate::unicode::is_ascii_letter(c) || c == '-'
}

pub open spec fn repo_char(c: char) -> bool {
    owner_char(c) || c == '.' || c == '_'
}

/// A GitHub account name: letters, digits and `-`.
pub open spec fn owner_ok(o: Seq<char>) -> bool {
    o.len() > 0 && forall|i: int| 0 <= i < o.len() ==> owner_char(#[trigger] o[i])
}

/// A repository name: letters, digits, `.`, `_` and `-`, not ending in
/// `.git`.
pub open spec fn repo_ok(r: Seq<char>) -> bool {
    &&& r.len() > 0
    &&& forall|i: int| 0 <= i < r.len() ==> repo_char(#[trigger] r[i])
    &&& !is_suffix(".git"@, r)
}

/// The ways the settings page accepts a repository `o/r` to be written.
pub open spec fn repo_forms(o: Seq<char>, r: Seq<char>) -> Seq<Seq<char>> {
    seq![
        "https://github.com/"@ + o + "/"@ + r,
        "https://github.com/"@ + o + "/"@ + r + ".git"@,
        "https://github.com/"@ + o + "/"@ + r + "/"@,
        "http://github.com/"@ + o + "/"@ + r,
        "git@github.com:"@ + o + "/"@ + r + ".git"@,
        "ssh://git@github.com/"@ + o + "/"@ + r,
        "github.com/"@ + o + "/"@ + r,
        o + "/"@ + r,
    ]
}

proof fn lemma_ws_chars()
    ensures
        forall|c: char| repo_char(c) ==> !crate::text::is_ws(c) && c != '/' && c != ':' && c != '@',
        forall|c: char| owner_char(c) ==> c != '.' && c != '@',
{
}

/// What is left once the host is off: `o/r` and the form's ending gives
/// exactly the owner and the repository.
proof fn lemma_repo_tail(o: Seq<char>, r: Seq<char>, suf: Seq<char>)
    requires
        owner_ok(o),
        repo_ok(r),
        suf == ""@ || suf == ".git"@ || suf == "/"@,
    ensures
        nonempty_pieces(split_char(trim_end_str(trim_end_chars(o + "/"@ + r + suf, seq!['/']), ".git"@), '/'))
            == seq![o, r],
{
    reveal_strlit("");
    reveal_strlit(".git");
    reveal_strlit("/");
    lemma_ws_chars();
    let base = o + seq!['/'] + r;
    assert(o + "/"@ + r =~= base);
    let x = base + suf;
    assert(seq!['/'].contains('/')) by {
        assert(seq!['/'][0] == '/');
    }
    assert(!seq!['/'].contains(r.last())) by {
        assert(repo_char(r.last()));
        if seq!['/'].contains(r.last()) {
            let k = choose|k: int| 0 <= k < 1 && seq!['/'][k] == r.last();
        }
    }
    assert(base.last() == r.last());
    // the ending goes
    let y = trim_end_chars(x, seq!['/']);
    if suf == "/"@ {
        assert(x.drop_last() =~= base);
        assert(y == trim_end_chars(base, seq!['/']));
    } else {
        assert(x.last() == (if suf.len() == 0 { r.last() } else { 't' }));
    }
    assert(trim_end_chars(base, seq!['/']) == base);
    let ys: Seq<char> = if suf == ".git"@ { base + ".git"@ } else { base };
    assert(y == ys) by {
        if suf == ""@ {
            assert(x =~= base);
        } else if suf == ".git"@ {
            assert(trim_end_chars(x, seq!['/']) == x);
        }
    }
    // `.git` goes once, and `o/r` does not end in it
    assert(!is_suffix(".git"@, base)) by {
        if is_suffix(".git"@, base) {
            if r.len() >= 4 {
                assert(r.skip(r.len() - 4) =~= base.skip(base.len() - 4));
            } else {
                let k = 3 - r.len();
                assert(base.skip(base.len() - 4)[k] == '/');
                assert(".git"@[k] != '/');
            }
        }
    }
    assert(trim_end_str(base, ".git"@) == base);
    if suf == ".git"@ {
        let z = base + ".git"@;
        assert(is_suffix(".git"@, z)) by {
            assert(z.skip(z.len() - 4) =~= ".git"@);
        }
        assert(z.take(z.len() - 4) =~= base);
    }
    assert(trim_end_str(y, ".git"@) == base);
    // split at the one `/`
    assert(crate::text::no_char(o, '/')) by {
        assert forall|i: int| 0 <= i < o.len() implies o[i] != '/' by {
            assert(owner_char(o[i]));
        }
    }
    crate::text::lemma_find_after(o, r, '/');
    assert(base.take(o.len() as int) =~= o);
    assert(base.skip(o.len() + 1int) =~= r);
    lemma_find_char_from(r, '/', 0);
    assert(find_char_from(r, '/', 0) is None) by {
        if let Some(i) = find_char_from(r, '/', 0) {
            assert(repo_char(r[i]));
        }
    }
    assert(split_char(base, '/') == seq![o] + split_char(r, '/'));
    assert(split_char(r, '/') == seq![r]);
    assert(split_char(base, '/') =~= seq![o, r]);
    assert(seq![o, r].filter(|p: Seq<char>| p.len() > 0) =~= seq![o, r]) by {
        reveal_with_fuel(Seq::filter, 3);
        assert(seq![o, r].drop_last() =~= seq![o]);
        assert(seq![o].drop_last() =~= Seq::<Seq<char>>::empty());
    }
}

/// The ending each form leaves after `o/r` once its host is off.
pub open spec fn form_ending(i: int) -> Seq<char> {
    if i == 1 || i == 4 {
        ".git"@
    } else if i == 2 {
        "/"@
    } else {
        ""@
    }
}

proof fn lemma_host_split(h: Seq<char>, o: Seq<char>, r: Seq<char>, suf: Seq<char>)
    requires
        owner_ok(o),
        crate::text::no_char(h, '/'),
        h.contains('.') || h.contains('@'),
    ensures
        ({
            let s1 = h + "/"@ + (o + "/"@ + r + suf);
            split_once(s1, '/') == Some((h, o + "/"@ + r + suf))
        }),
{
    reveal_strlit("/");
    let rest = o + "/"@ + r + suf;
    let s1 = h + "/"@ + rest;
    assert(s1 =~= h + seq!['/'] + rest);
    crate::text::lemma_find_after(h, rest, '/');
    assert(s1.take(h.len() as int) =~= h);
    assert(s1.skip(h.len() + 1int) =~= rest);
}

proof fn lemma_https_form(o: Seq<char>, r: Seq<char>, i: int)
    requires
        owner_ok(o),
        repo_ok(r),
        i == 0 || i == 1 || i == 2,
    ensures
        strip_host(repo_forms(o, r)[i]) == o + "/"@ + r + form_ending(i),
{
    reveal_strlit("https://github.com/");
    reveal_strlit("http://github.com/");
    reveal_strlit("git@github.com:");
    reveal_strlit("ssh://git@github.com/");
    reveal_strlit("github.com/");
    reveal_strlit("github.com");
    reveal_strlit("git@github.com");
    reveal_strlit("https://");
    reveal_strlit("http://");
    reveal_strlit("ssh://");
    reveal_strlit("git@");
    reveal_strlit("/");
    reveal_strlit(".git");
    reveal_strlit("");
    lemma_ws_chars();
    lemma_ws_chars();
    let f = repo_forms(o, r)[i];
    let gh = "github.com"@;
    assert(gh.contains('.')) by {
        assert(gh[6] == '.');
    }
    assert(crate::text::no_char(gh, '/'));
    let core = o + "/"@ + r + form_ending(i);
    assert(f =~= "https://"@ + (gh + "/"@ + core));
    assert(is_prefix("https://"@, f)) by {
        assert(f.take(8) =~= "https://"@);
    }
    assert(!is_prefix("git@"@, f)) by {
        assert(f[3] != "git@"@[3]);
        if is_prefix("git@"@, f) {
            assert(f.take(4)[3] == f[3]);
        }
    }
    assert(f.skip(8) =~= gh + "/"@ + core);
    lemma_host_split(gh, o, r, form_ending(i));
}

proof fn lemma_http_form(o: Seq<char>, r: Seq<char>, i: int)
    requires
        owner_ok(o),
        repo_ok(r),
        i == 3,
    ensures
        strip_host(repo_forms(o, r)[i]) == o + "/"@ + r + form_ending(i),
{
    reveal_strlit("https://github.com/");
    reveal_strlit("http://github.com/");
    reveal_strlit("git@github.com:");
    reveal_strlit("ssh://git@github.com/");
    reveal_strlit("github.com/");
    reveal_strlit("github.com");
    reveal_strlit("git@github.com");
    reveal_strlit("https://");
    reveal_strlit("http://");
    reveal_strlit("ssh://");
    reveal_strlit("git@");
    reveal_strlit("/");
    reveal_strlit(".git");
    reveal_strlit("");
    lemma_ws_chars();
    lemma_ws_chars();
    let f = repo_forms(o, r)[i];
    let gh = "github.com"@;
    assert(gh.contains('.')) by {
        assert(gh[6] == '.');
    }
    assert(crate::text::no_char(gh, '/'));
    let core = o + "/"@ + r;
    assert(f =~= "http://"@ + (gh + "/"@ + core));
    assert(!is_prefix("https://"@, f)) by {
        if is_prefix("https://"@, f) {
            assert(f.take(8)[4] == f[4]);
        }
    }
    assert(!is_prefix("git@"@, f)) by {
        if is_prefix("git@"@, f) {
            assert(f.take(4)[0] == f[0]);
        }
    }
    assert(is_prefix("http://"@, f)) by {
        assert(f.take(7) =~= "http://"@);
    }
    assert(f.skip(7) =~= gh + "/"@ + core);
    assert(core + ""@ =~= core);
    lemma_host_split(gh, o, r, ""@);
    assert(o + "/"@ + r + ""@ =~= core);
}

proof fn lemma_git_at_form(o: Seq<char>, r: Seq<char>, i: int)
    requires
        owner_ok(o),
        repo_ok(r),
        i == 4,
    ensures
        strip_host(repo_forms(o, r)[i]) == o + "/"@ + r + form_ending(i),
{
    reveal_strlit("https://github.com/");
    reveal_strlit("http://github.com/");
    reveal_strlit("git@github.com:");
    reveal_strlit("ssh://git@github.com/");
    reveal_strlit("github.com/");
    reveal_strlit("github.com");
    reveal_strlit("git@github.com");
    reveal_strlit("https://");
    reveal_strlit("http://");
    reveal_strlit("ssh://");
    reveal_strlit("git@");
    reveal_strlit("/");
    reveal_strlit(".git");
    reveal_strlit("");
    lemma_ws_chars();
    lemma_ws_chars();
    let f = repo_forms(o, r)[i];
    let gh = "github.com"@;
    assert(gh.contains('.')) by {
        assert(gh[6] == '.');
    }
    assert(crate::text::no_char(gh, '/'));
    let core = o + "/"@ + r + ".git"@;
    assert(is_prefix("git@"@, f)) by {
        assert(f.take(4) =~= "git@"@);
    }
    let t = f.skip(4);
    assert(t =~= gh + seq![':'] + core);
    assert(crate::text::no_char(gh, ':'));
    crate::text::lemma_find_after(gh, core, ':');
    assert(t.take(gh.len() as int) =~= gh);
    assert(t.skip(gh.len() + 1int) =~= core);
}

proof fn lemma_ssh_form(o: Seq<char>, r: Seq<char>, i: int)
    requires
        owner_ok(o),
        repo_ok(r),
        i == 5,
    ensures
        strip_host(repo_forms(o, r)[i]) == o + "/"@ + r + form_ending(i),
{
    reveal_strlit("https://github.com/");
    reveal_strlit("http://github.com/");
    reveal_strlit("git@github.com:");
    reveal_strlit("ssh://git@github.com/");
    reveal_strlit("github.com/");
    reveal_strlit("github.com");
    reveal_strlit("git@github.com");
    reveal_strlit("https://");
    reveal_strlit("http://");
    reveal_strlit("ssh://");
    reveal_strlit("git@");
    reveal_strlit("/");
    reveal_strlit(".git");
    reveal_strlit("");
    lemma_ws_chars();
    lemma_ws_chars();
    let f = repo_forms(o, r)[i];
    let gh = "github.com"@;
    assert(gh.contains('.')) by {
        assert(gh[6] == '.');
    }
    assert(crate::text::no_char(gh, '/'));
    let core = o + "/"@ + r;
    let gg = "git@github.com"@;
    assert(gg.contains('@')) by {
        assert(gg[3] == '@');
    }
    assert(crate::text::no_char(gg, '/'));
    assert(f =~= "ssh://"@ + (gg + "/"@ + core));
    assert(!is_prefix("git@"@, f)) by {
        if is_prefix("git@"@, f) {
            assert(f.take(4)[0] == f[0]);
        }
    }
    assert(!is_prefix("https://"@, f)) by {
        if is_prefix("https://"@, f) {
            assert(f.take(8)[0] == f[0]);
        }
    }
    assert(!is_prefix("http://"@, f)) by {
        if is_prefix("http://"@, f) {
            assert(f.take(7)[0] == f[0]);
        }
    }
    assert(is_prefix("ssh://"@, f)) by {
        assert(f.take(6) =~= "ssh://"@);
    }
    assert(f.skip(6) =~= gg + "/"@ + core);
    lemma_host_split(gg, o, r, ""@);
    assert(o + "/"@ + r + ""@ =~= core);
}

proof fn lemma_bare_host_form(o: Seq<char>, r: Seq<char>, i: int)
    requires
        owner_ok(o),
        repo_ok(r),
        i == 6,
    ensures
        strip_host(repo_forms(o, r)[i]) == o + "/"@ + r + form_ending(i),
{
    reveal_strlit("https://github.com/");
    reveal_strlit("http://github.com/");
    reveal_strlit("git@github.com:");
    reveal_strlit("ssh://git@github.com/");
    reveal_strlit("github.com/");
    reveal_strlit("github.com");
    reveal_strlit("git@github.com");
    reveal_strlit("https://");
    reveal_strlit("http://");
    reveal_strlit("ssh://");
    reveal_strlit("git@");
    reveal_strlit("/");
    reveal_strlit(".git");
    reveal_strlit("");
    lemma_ws_chars();
    lemma_ws_chars();
    let f = repo_forms(o, r)[i];
    let gh = "github.com"@;
    assert(gh.contains('.')) by {
        assert(gh[6] == '.');
    }
    assert(crate::text::no_char(gh, '/'));
    let core = o + "/"@ + r;
    assert(f =~= gh + "/"@ + core);
    assert(!is_prefix("git@"@, f)) by {
        if is_prefix("git@"@, f) {
            assert(f.take(4)[3] == f[3]);
        }
    }
    assert(!is_prefix("https://"@, f)) by {
        if is_prefix("https://"@, f) {
            assert(f.take(8)[1] == f[1]);
        }
    }
    assert(!is_prefix("http://"@, f)) by {
        if is_prefix("http://"@, f) {
            assert(f.take(7)[1] == f[1]);
        }
    }
    assert(!is_prefix("ssh://"@, f)) by {
        if is_prefix("ssh://"@, f) {
            assert(f.take(6)[0] == f[0]);
        }
    }
    lemma_host_split(gh, o, r, ""@);
    assert(o + "/"@ + r + ""@ =~= core);
}

proof fn lemma_owner_form(o: Seq<char>, r: Seq<char>, i: int)
    requires
        owner_ok(o),
        repo_ok(r),
        i == 7,
    ensures
        strip_host(repo_forms(o, r)[i]) == o + "/"@ + r + form_ending(i),
{
    reveal_strlit("https://github.com/");
    reveal_strlit("http://github.com/");
    reveal_strlit("git@github.com:");
    reveal_strlit("ssh://git@github.com/");
    reveal_strlit("github.com/");
    reveal_strlit("github.com");
    reveal_strlit("git@github.com");
    reveal_strlit("https://");
    reveal_strlit("http://");
    reveal_strlit("ssh://");
    reveal_strlit("git@");
    reveal_strlit("/");
    reveal_strlit(".git");
    reveal_strlit("");
    lemma_ws_chars();
    lemma_ws_chars();
    let f = repo_forms(o, r)[i];
    let gh = "github.com"@;
    assert(gh.contains('.')) by {
        assert(gh[6] == '.');
    }
    assert(crate::text::no_char(gh, '/'));
    // `o/r` itself: no scheme, and `o` names no host
    assert(f == o + "/"@ + r);
    assert(f[0] == o[0]);
    assert(!is_prefix("git@"@, f) && !is_prefix("https://"@, f) && !is_prefix("http://"@, f)
        && !is_prefix("ssh://"@, f)) by {
        lemma_owner_no_scheme(o, r);
    }
    let core = f;
    assert(crate::text::no_char(o, '/')) by {
        assert forall|k: int| 0 <= k < o.len() implies o[k] != '/' by {
            assert(owner_char(o[k]));
        }
    }
    assert(f =~= o + seq!['/'] + r);
    crate::text::lemma_find_after(o, r, '/');
    assert(f.take(o.len() as int) =~= o);
    assert(!o.contains('.') && !o.contains('@')) by {
        if o.contains('.') {
            let k = choose|k: int| 0 <= k < o.len() && o[k] == '.';
            assert(owner_char(o[k]));
        }
        if o.contains('@') {
            let k = choose|k: int| 0 <= k < o.len() && o[k] == '@';
            assert(owner_char(o[k]));
        }
    }
    assert(o + "/"@ + r + ""@ =~= core);
}

proof fn lemma_form_host(o: Seq<char>, r: Seq<char>, i: int)
    requires
        owner_ok(o),
        repo_ok(r),
        0 <= i < 8,
    ensures
        trim(repo_forms(o, r)[i]) == repo_forms(o, r)[i],
        strip_host(repo_forms(o, r)[i]) == o + "/"@ + r + form_ending(i),
{
    reveal_strlit("https://github.com/");
    reveal_strlit("http://github.com/");
    reveal_strlit("git@github.com:");
    reveal_strlit("ssh://git@github.com/");
    reveal_strlit("github.com/");
    reveal_strlit("github.com");
    reveal_strlit("git@github.com");
    reveal_strlit("https://");
    reveal_strlit("http://");
    reveal_strlit("ssh://");
    reveal_strlit("git@");
    reveal_strlit("/");
    reveal_strlit(".git");
    reveal_strlit("");
    lemma_ws_chars();
    lemma_ws_chars();
    let f = repo_forms(o, r)[i];
    let tail = o + "/"@ + r + form_ending(i);
    assert(owner_char(o[0]));
    assert(repo_char(r.last()));
    // no whitespace at either end
    assert(f.len() > 0);
    assert(!crate::text::is_ws(f[0]) && !crate::text::is_ws(f.last())) by {
        assert(!crate::text::is_ws('h') && !crate::text::is_ws('g') && !crate::text::is_ws('s')) by {
            assert(('h' as u32) == 104);
            assert(('g' as u32) == 103);
            assert(('s' as u32) == 115);
        }
        assert(!crate::text::is_ws('t') && !crate::text::is_ws('/')) by {
            assert(('t' as u32) == 116);
            assert(('/' as u32) == 47);
        }
        if i == 7 {
            assert(f[0] == o[0]);
        }
        if i == 0 || i == 3 || i == 5 || i == 6 || i == 7 {
            assert(f.last() == r.last());
        }
    }
    assert(crate::text::trim_start(f) == f);
    assert(crate::text::trim_end(f) == f);
    if i <= 2 {
        lemma_https_form(o, r, i);
    } else if i == 3 {
        lemma_http_form(o, r, i);
    } else if i == 4 {
        lemma_git_at_form(o, r, i);
    } else if i == 5 {
        lemma_ssh_form(o, r, i);
    } else if i == 6 {
        lemma_bare_host_form(o, r, i);
    } else {
        lemma_owner_form(o, r, i);
    }
}

/// An owner's text starts no scheme: a scheme holds `:` or `@` within its
/// first characters, which no owner does, and the `/` after the owner comes
/// too early for one.
proof fn lemma_owner_no_scheme(o: Seq<char>, r: Seq<char>)
    requires
        owner_ok(o),
    ensures
        ({
            let f = o + "/"@ + r;
            !is_prefix("git@"@, f) && !is_prefix("https://"@, f) && !is_prefix("http://"@, f) && !is_prefix("ssh://"@, f)
        }),
{
    reveal_strlit("git@");
    reveal_strlit("https://");
    reveal_strlit("http://");
    reveal_strlit("ssh://");
    reveal_strlit("/");
    let f = o + "/"@ + r;
    // the first `:` or `@` of each scheme is at 3, 4, 5 or 3
    assert forall|k: int| 0 <= k < f.len() && (f[k] == ':' || f[k] == '@') implies k > o.len() by {
        if k < o.len() {
            assert(f[k] == o[k]);
            assert(owner_char(o[k]));
        } else if k == o.len() {
            assert(f[k] == '/');
        }
    }
    assert forall|k: int| 0 <= k < o.len() implies f[k] != '/' by {
        assert(f[k] == o[k]);
        assert(owner_char(o[k]));
    }
    assert(f[o.len() as int] == '/');
    let n = o.len() as int;
    if is_prefix("git@"@, f) {
        assert(f.take(4)[3] == f[3]);
        assert(n < 3);
        assert(f.take(4)[n] == f[n]);
    }
    if is_prefix("https://"@, f) {
        assert(f.take(8)[5] == f[5]);
        assert(n < 5);
        assert(f.take(8)[n] == f[n]);
    }
    if is_prefix("http://"@, f) {
        assert(f.take(7)[4] == f[4]);
        assert(n < 4);
        assert(f.take(7)[n] == f[n]);
    }
    if is_prefix("ssh://"@, f) {
        assert(f.take(6)[3] == f[3]);
        assert(n < 3);
        assert(f.take(6)[n] == f[n]);
    }
}

/// Every way the settings page accepts a repository `o/r` to be written
/// (https, http, with `.git` or a trailing `/`, ssh, `git@…:`, the bare
/// host, or `o/r` itself) is read as `o/r`.
pub proof fn law_repo_forms_read_as_owner_and_name(o: Seq<char>, r: Seq<char>, i: int)
    requires
        owner_ok(o),
        repo_ok(r),
        0 <= i < 8,
    ensures
        repo_spec(repo_forms(o, r)[i]) == Ok::<Seq<char>, Seq<char>>(o + "/"@ + r),
{
    reveal_strlit("");
    reveal_strlit(".git");
    reveal_strlit("/");
    lemma_form_host(o, r, i);
    lemma_repo_tail(o, r, form_ending(i));
    let f = repo_forms(o, r)[i];
    assert(f.len() > 0) by {
        if i == 7 {
            assert(o.len() > 0);
        }
    }
}

} // verus!
