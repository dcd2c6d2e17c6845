//! What the GitHub side reports back: the synchronisation report, the
//! status bar's state, and what is known of a repository and an account.

use vstd::prelude::*;
use crate::ai::opt_str;
use crate::github::{is_dirty, normalize_repo, parse_scopes, repo_spec, scopes_spec};
use crate::sync::short_commit;
use crate::text::{chars_of, push_all, split_char, string_of, strs, trim, trim_exec};

verus! {

/// A file changed on both sides: the local one stays, the remote one was
/// saved beside it.
#[derive(Clone, Debug)]
pub struct ConflictItem {
    pub path: String,
    pub saved_as: String,
}

/// What a synchronisation did.
#[derive(Clone, Debug)]
pub struct SyncReport {
    /// written here from the remote
    pub pulled: Vec<String>,
    /// deleted here because the remote deleted them
    pub local_deleted: Vec<String>,
    /// sent to the remote
    pub pushed: Vec<String>,
    /// deleted on the remote because they were deleted here
    pub deleted: Vec<String>,
    pub conflicts: Vec<ConflictItem>,
    pub unchanged: usize,
    /// what was left out, and why
    pub skipped: Vec<String>,
    pub commit: String,
    pub url: String,
    pub branch: String,
    pub message: String,
}

/// What is known of a repository.
#[derive(Clone, Debug)]
pub struct RepoInfo {
    pub full_name: String,
    pub default_branch: String,
    pub private: bool,
    pub html_url: String,
    /// it exists but has no commit yet
    pub empty: bool,
}

/// The account a token belongs to.
#[derive(Clone, Debug)]
pub struct AccountInfo {
    pub login: String,
    pub name: String,
    /// the token's scopes (none for a fine-grained token)
    pub scopes: Vec<String>,
}

/// The status bar's view of synchronisation.
#[derive(Clone, Debug)]
pub struct GhStatus {
    /// a repository is set
    pub configured: bool,
    /// something in the vault changed since the last synchronisation
    pub dirty: bool,
    pub repo: String,
    pub url: String,
    pub branch: String,
    pub last_sync: String,
    pub last_commit: String,
}

/// The web address of a repository `owner/repo`.
pub open spec fn repo_url_spec(repo: Seq<char>) -> Seq<char> {
    "https://github.com/"@ + repo
}

pub fn repo_url(repo: &str) -> (r: String)
    ensures
        r@ == repo_url_spec(repo@),
{
    let mut out = chars_of("https://github.com/");
    push_all(&mut out, &chars_of(repo));
    string_of(&out)
}

/// The branch a synchronisation uses: the configured one, trimmed, or
/// `main`.
pub open spec fn sync_branch_spec(branch: Seq<char>) -> Seq<char> {
    if trim(branch).len() == 0 {
        "main"@
    } else {
        trim(branch)
    }
}

pub fn sync_branch(branch: &str) -> (r: String)
    ensures
        r@ == sync_branch_spec(branch@),
{
    let t = trim_exec(&chars_of(branch));
    if t.len() == 0 {
        "main".to_owned()
    } else {
        string_of(&t)
    }
}

// ───────────────────────── the status bar ─────────────────────────

/// The status: the repository as normalised (empty when it does not
/// read), and whether the vault changed since the last synchronisation,
/// which is only asked when a repository is set and a synchronisation
/// happened (`newest` is the newest file time in the vault, `cutoff` the
/// last synchronisation as a timestamp).
pub fn gh_status(
    repo_input: &str,
    branch: &str,
    last_sync: &str,
    last_commit: &str,
    newest: Option<u64>,
    cutoff: Option<i64>,
) -> (r: GhStatus)
    requires
        cutoff matches Some(c) ==> c < i64::MAX,
    ensures
        ({
            let repo = match repo_spec(repo_input@) {
                Ok(x) => x,
                Err(_) => seq![],
            };
            &&& r.repo@ == repo
            &&& r.configured == (repo.len() > 0)
            &&& r.url@ == (if repo.len() > 0 { repo_url_spec(repo) } else { seq![] })
            &&& r.dirty == (repo.len() > 0 && last_sync@.len() > 0 && match (newest, cutoff) {
                (Some(t), Some(c)) => crate::github::as_signed(t) > c + 1,
                _ => false,
            })
            &&& r.branch@ == branch@
            &&& r.last_sync@ == last_sync@
            &&& r.last_commit@ == last_commit@
        }),
{
    let repo = match normalize_repo(repo_input) {
        Ok(x) => x,
        Err(_) => String::new(),
    };
    let configured = chars_of(repo.as_str()).len() > 0;
    let dirty = configured && chars_of(last_sync).len() > 0 && is_dirty(newest, cutoff);
    let url = if configured {
        repo_url(repo.as_str())
    } else {
        String::new()
    };
    GhStatus {
        configured,
        dirty,
        repo,
        url,
        branch: branch.to_owned(),
        last_sync: last_sync.to_owned(),
        last_commit: last_commit.to_owned(),
    }
}

// ───────────────────────── the synchronisation report ─────────────────────────

pub open spec fn conflicts_view(v: Seq<ConflictItem>) -> Seq<(Seq<char>, Seq<char>)> {
    v.map_values(|c: ConflictItem| (c.path@, c.saved_as@))
}

/// The report of a synchronisation of `repo` on `branch`: what went each
/// way, what was left out (the notes on files being edited last), the
/// short commit, and the summary from the counts (`uploads` the files
/// that were to go up, `resurrected` those of them the remote had
/// deleted).
pub fn sync_report(
    repo: &str,
    branch: String,
    pulled: Vec<String>,
    local_deleted: Vec<String>,
    pushed: Vec<String>,
    deleted: Vec<String>,
    conflicts: Vec<ConflictItem>,
    unchanged: usize,
    skipped: Vec<String>,
    protected_notes: Vec<String>,
    commit: &str,
    uploads: usize,
    do_push: bool,
    resurrected: usize,
) -> (r: SyncReport)
    ensures
        strs(r.pulled@) == strs(pulled@),
        strs(r.local_deleted@) == strs(local_deleted@),
        strs(r.pushed@) == strs(pushed@),
        strs(r.deleted@) == strs(deleted@),
        conflicts_view(r.conflicts@) == conflicts_view(conflicts@),
        r.unchanged == unchanged,
        strs(r.skipped@) == strs(skipped@) + strs(protected_notes@),
        r.commit@ == commit@.take(if commit@.len() < 10 { commit@.len() as int } else { 10 }),
        r.url@ == repo_url_spec(repo@),
        r.branch@ == branch@,
        r.message@ == crate::sync::report_spec(
            pulled@.len(),
            pushed@.len(),
            local_deleted@.len(),
            deleted@.len(),
            conflicts@.len(),
            uploads as nat,
            do_push,
            resurrected as nat,
        ),
{
    let message = crate::sync::sync_message(
        pulled.len(),
        pushed.len(),
        local_deleted.len(),
        deleted.len(),
        conflicts.len(),
        uploads,
        do_push,
        resurrected,
    );
    let mut all_skipped = skipped;
    let ghost before = strs(all_skipped@);
    let mut i: usize = 0;
    while i < protected_notes.len()
        invariant
            0 <= i <= protected_notes@.len(),
            strs(all_skipped@) == before + strs(protected_notes@).take(i as int),
        decreases protected_notes.len() - i,
    {
        let ghost prev = strs(all_skipped@);
        let x = protected_notes[i].clone();
        all_skipped.push(x);
        assert(strs(all_skipped@) =~= prev.push(protected_notes@[i as int]@));
        assert(strs(protected_notes@).take(i + 1) =~= strs(protected_notes@).take(i as int).push(
            protected_notes@[i as int]@,
        ));
        assert(strs(all_skipped@) =~= before + strs(protected_notes@).take(i + 1));
        i += 1;
    }
    assert(strs(protected_notes@).take(protected_notes@.len() as int) =~= strs(protected_notes@));
    SyncReport {
        pulled,
        local_deleted,
        pushed,
        deleted,
        conflicts,
        unchanged,
        skipped: all_skipped,
        commit: short_commit(commit),
        url: repo_url(repo),
        branch,
        message,
    }
}

// ───────────────────────── repositories and accounts ─────────────────────────

/// What serde_json reads of a repository body: `full_name`,
/// `default_branch` and `html_url` where they are strings, `private` where
/// it is a boolean; or serde_json's message where the body is not JSON.
pub uninterp spec fn repo_fields(body: Seq<char>) -> Result<
    (Option<Seq<char>>, Option<Seq<char>>, Option<bool>, Option<Seq<char>>),
    Seq<char>,
>;

/// Reads a repository body with `serde_json::from_str`, then indexing,
/// `Value::as_str` and `Value::as_bool`; claims only that the result is the
/// named function of the text.
#[verifier::external_body]
fn read_repo_fields(body: &str) -> (r: Result<(Option<String>, Option<String>, Option<bool>, Option<String>), String>)
    ensures
        match r {
            Ok((a, b, c, d)) => repo_fields(body@) == Ok::<
                (Option<Seq<char>>, Option<Seq<char>>, Option<bool>, Option<Seq<char>>),
                Seq<char>,
            >((opt_str(a), opt_str(b), c, opt_str(d))),
            Err(e) => repo_fields(body@) == Err::<
                (Option<Seq<char>>, Option<Seq<char>>, Option<bool>, Option<Seq<char>>),
                Seq<char>,
            >(e@),
        },
{
    let v: serde_json::Value = serde_json::from_str(body).map_err(|e| e.to_string())?;
    let s = |x: &serde_json::Value| x.as_str().map(str::to_string);
    Ok((s(&v["full_name"]), s(&v["default_branch"]), v["private"].as_bool(), s(&v["html_url"])))
}

pub open spec fn or_text(o: Option<Seq<char>>, d: Seq<char>) -> Seq<char> {
    match o {
        Some(x) => x,
        None => d,
    }
}

/// A repository as a check of `repo` (owner/repo) reads it: the name,
/// default branch (`main` if missing), privacy (public if missing) and
/// address from the body.
pub fn checked_repo(body: &str, repo: &str) -> (r: Result<RepoInfo, String>)
    ensures
        match repo_fields(body@) {
            Err(e) => r matches Err(m) && m@ == e,
            Ok((f, b, p, u)) => r matches Ok(info) && info.full_name@ == or_text(f, repo@)
                && info.default_branch@ == or_text(b, "main"@) && info.private == (match p {
                Some(x) => x,
                None => false,
            }) && info.html_url@ == or_text(u, ""@) && !info.empty,
        },
{
    proof {
        reveal_strlit("");
        reveal_strlit("main");
    }
    match read_repo_fields(body) {
        Err(e) => Err(e),
        Ok((f, b, p, u)) => Ok(
            RepoInfo {
                full_name: match f {
                    Some(x) => x,
                    None => repo.to_owned(),
                },
                default_branch: match b {
                    Some(x) => x,
                    None => "main".to_owned(),
                },
                private: match p {
                    Some(x) => x,
                    None => false,
                },
                html_url: match u {
                    Some(x) => x,
                    None => String::new(),
                },
                empty: false,
            },
        ),
    }
}

/// A repository as its creation reads it: private unless the body says
/// otherwise, and empty.
pub fn created_repo(body: &str) -> (r: Result<RepoInfo, String>)
    ensures
        match repo_fields(body@) {
            Err(e) => r matches Err(m) && m@ == e,
            Ok((f, b, p, u)) => r matches Ok(info) && info.full_name@ == or_text(f, ""@)
                && info.default_branch@ == or_text(b, "main"@) && info.private == (match p {
                Some(x) => x,
                None => true,
            }) && info.html_url@ == or_text(u, ""@) && info.empty,
        },
{
    proof {
        reveal_strlit("");
        reveal_strlit("main");
    }
    match read_repo_fields(body) {
        Err(e) => Err(e),
        Ok((f, b, p, u)) => Ok(
            RepoInfo {
                full_name: match f {
                    Some(x) => x,
                    None => String::new(),
                },
                default_branch: match b {
                    Some(x) => x,
                    None => "main".to_owned(),
                },
                private: match p {
                    Some(x) => x,
                    None => true,
                },
                html_url: match u {
                    Some(x) => x,
                    None => String::new(),
                },
                empty: true,
            },
        ),
    }
}

/// Why a repository named `name` could not be created when GitHub refused
/// it as unprocessable.
pub fn create_refused(name: &str) -> (r: String)
    ensures
        r@ == "建不了 `"@ + name@ + "`：可能这个名字已经被占了，或者不符合 GitHub 的命名规则。"@,
{
    let mut out = chars_of("建不了 `");
    push_all(&mut out, &chars_of(name));
    push_all(&mut out, &chars_of("`：可能这个名字已经被占了，或者不符合 GitHub 的命名规则。"));
    string_of(&out)
}

/// What serde_json reads of a branch list: the number of items when it
/// is an array (`None` for anything else); or serde_json's message where
/// the body is not JSON.
pub uninterp spec fn branch_count(body: Seq<char>) -> Result<Option<nat>, Seq<char>>;

/// Reads a branch list with `serde_json::from_str` and `Value::as_array`,
/// giving the array's length; claims only that the result is the named
/// function of the text.
#[verifier::external_body]
fn read_branch_count(body: &str) -> (r: Result<Option<usize>, String>)
    ensures
        match r {
            Ok(Some(n)) => branch_count(body@) == Ok::<Option<nat>, Seq<char>>(Some(n as nat)),
            Ok(None) => branch_count(body@) == Ok::<Option<nat>, Seq<char>>(None),
            Err(e) => branch_count(body@) == Err::<Option<nat>, Seq<char>>(e@),
        },
{
    let v: serde_json::Value = serde_json::from_str(body).map_err(|e| e.to_string())?;
    match v.as_array() {
        Some(a) => Ok(Some(a.len())),
        None => Ok(None),
    }
}

/// The end of a repository check when the branch `br` was not found:
/// `branches` is the branch list's body where it could be fetched. An
/// empty repository is no error (the first synchronisation sets it up).
pub fn missing_branch_outcome(info: RepoInfo, br: &str, branches: Option<String>) -> (r: Result<RepoInfo, String>)
    ensures
        match branches {
            None => r matches Err(m) && m@ == missing_branch_text(br@),
            Some(b) => match branch_count(b@) {
                Err(e) => r matches Err(m) && m@ == e,
                Ok(Some(n)) => if n == 0 {
                    r matches Ok(i) && i.empty && i.full_name == info.full_name
                        && i.default_branch == info.default_branch && i.private == info.private
                        && i.html_url == info.html_url
                } else {
                    r matches Err(m) && m@ == missing_branch_text(br@)
                },
                Ok(None) => r matches Err(m) && m@ == missing_branch_text(br@),
            },
        },
{
    match branches {
        Some(b) => match read_branch_count(b.as_str()) {
            Err(e) => return Err(e),
            Ok(Some(n)) => {
                if n == 0 {
                    return Ok(RepoInfo { empty: true, ..info });
                }
            },
            Ok(None) => {},
        },
        None => {},
    }
    let mut out = chars_of("仓库能访问，但没有分支 `");
    push_all(&mut out, &chars_of(br));
    push_all(&mut out, &chars_of("`。\n要么分支名填错了，要么这个仓库还没建过初始提交。"));
    Err(string_of(&out))
}

pub open spec fn missing_branch_text(br: Seq<char>) -> Seq<char> {
    "仓库能访问，但没有分支 `"@ + br + "`。\n要么分支名填错了，要么这个仓库还没建过初始提交。"@
}

/// What serde_json reads of an account body: `login` and `name` where they
/// are strings; or serde_json's message where the body is not JSON.
pub uninterp spec fn account_fields(body: Seq<char>) -> Result<(Option<Seq<char>>, Option<Seq<char>>), Seq<char>>;

/// Reads an account body with `serde_json::from_str`, indexing and
/// `Value::as_str`; claims only that the result is the named function of
/// the text.
#[verifier::external_body]
fn read_account_fields(body: &str) -> (r: Result<(Option<String>, Option<String>), String>)
    ensures
        match r {
            Ok((a, b)) => account_fields(body@) == Ok::<(Option<Seq<char>>, Option<Seq<char>>), Seq<char>>(
                (opt_str(a), opt_str(b)),
            ),
            Err(e) => account_fields(body@) == Err::<(Option<Seq<char>>, Option<Seq<char>>), Seq<char>>(e@),
        },
{
    let v: serde_json::Value = serde_json::from_str(body).map_err(|e| e.to_string())?;
    Ok((v["login"].as_str().map(str::to_string), v["name"].as_str().map(str::to_string)))
}

/// The account of a token: login and name from the body (empty if
/// missing), scopes from the `x-oauth-scopes` header.
pub fn account_info(body: &str, scopes_header: Option<String>) -> (r: Result<AccountInfo, String>)
    ensures
        match account_fields(body@) {
            Err(e) => r matches Err(m) && m@ == e,
            Ok((l, n)) => r matches Ok(a) && a.login@ == or_text(l, ""@) && a.name@ == or_text(n, ""@)
                && strs(a.scopes@) == (match scopes_header {
                Some(h) => scopes_spec(split_char(h@, ',')),
                None => seq![],
            }),
        },
{
    proof {
        reveal_strlit("");
    }
    let scopes = parse_scopes(scopes_header);
    match read_account_fields(body) {
        Err(e) => Err(e),
        Ok((l, n)) => Ok(
            AccountInfo {
                login: match l {
                    Some(x) => x,
                    None => String::new(),
                },
                name: match n {
                    Some(x) => x,
                    None => String::new(),
                },
                scopes,
            },
        ),
    }
}

} // verus!
