//! Where new documents and folders go, what they start with, and how a
//! diary's frontmatter is changed.

use vstd::prelude::*;
use crate::index::{guard_under_notes, under_notes};
use crate::note::{sanitize_title, sanitize_title_spec, split_frontmatter, split_fm_spec};
use crate::task::{date_only, date_only_exec};
use crate::text::{
    byte_prefix, chars_of, push_all, string_of, trim, trim_end_chars, trim_exec, trim_start_chars,
};

verus! {

/// `s` without slashes at either end.
pub open spec fn trim_slashes(s: Seq<char>) -> Seq<char> {
    trim_start_chars(trim_end_chars(s, seq!['/']), seq!['/'])
}

fn trim_slashes_exec(s: &str) -> (r: Vec<char>)
    ensures
        r@ == trim_slashes(s@),
{
    let mut slash: Vec<char> = Vec::new();
    slash.push('/');
    assert(slash@ =~= seq!['/']);
    crate::text::trim_start_chars_exec(&crate::text::trim_end_chars_exec(&chars_of(s), &slash), &slash)
}

// ───────────────────────── notes ─────────────────────────

/// The folder a new note goes in: `folder` (without slashes at its ends)
/// under the notes folder, or the notes folder itself.
pub open spec fn note_folder_spec(notes_dir: Seq<char>, folder: Option<Seq<char>>) -> Seq<char> {
    match folder {
        Some(f) => if trim(f).len() > 0 {
            notes_dir + "/"@ + trim_slashes(f)
        } else {
            notes_dir
        },
        None => notes_dir,
    }
}

pub fn note_folder(notes_dir: &str, folder: Option<String>) -> (r: String)
    ensures
        r@ == note_folder_spec(notes_dir@, crate::ai::opt_str(folder)),
{
    match folder {
        Some(f) => if trim_exec(&chars_of(f.as_str())).len() > 0 {
            let mut out = chars_of(notes_dir);
            push_all(&mut out, &chars_of("/"));
            push_all(&mut out, &trim_slashes_exec(f.as_str()));
            string_of(&out)
        } else {
            notes_dir.to_owned()
        },
        None => notes_dir.to_owned(),
    }
}

/// A new note titled `title`: its name (the title made safe) and its first
/// text, a heading with the name; or why it cannot be made.
pub fn new_note(title: &str) -> (r: Result<(String, String), String>)
    ensures
        ({
            let clean = sanitize_title_spec(title@);
            if clean.len() == 0 {
                r matches Err(e) && e@ == "标题不能为空"@
            } else {
                r matches Ok((name, body)) && name@ == clean && body@ == "# "@ + clean + "\n\n"@
            }
        }),
{
    let clean = sanitize_title(title);
    if chars_of(clean.as_str()).len() == 0 {
        return Err("标题不能为空".to_owned());
    }
    let mut body = chars_of("# ");
    push_all(&mut body, &chars_of(clean.as_str()));
    push_all(&mut body, &chars_of("\n\n"));
    Ok((clean, string_of(&body)))
}

/// The new name of a document renamed to `title` (made safe), or why it
/// cannot be.
pub fn rename_target(title: &str) -> (r: Result<String, String>)
    ensures
        ({
            let clean = sanitize_title_spec(title@);
            if clean.len() == 0 {
                r matches Err(e) && e@ == "名称不能为空"@
            } else {
                r matches Ok(name) && name@ == clean
            }
        }),
{
    let clean = sanitize_title(title);
    if chars_of(clean.as_str()).len() == 0 {
        Err("名称不能为空".to_owned())
    } else {
        Ok(clean)
    }
}

/// What a deleted file or folder is called in the trash.
pub fn trash_name(stamp: &str, name: &str) -> (r: String)
    ensures
        r@ == stamp@ + "__"@ + name@,
{
    let mut out = chars_of(stamp);
    push_all(&mut out, &chars_of("__"));
    push_all(&mut out, &chars_of(name));
    string_of(&out)
}

// ───────────────────────── diaries ─────────────────────────

/// The day a new diary is for: `date` when it is `dddd-dd-dd`, else
/// today.
pub open spec fn diary_day(date: Seq<char>, today: Seq<char>) -> Seq<char> {
    if date_only(date) {
        date
    } else {
        today
    }
}

/// A new diary for `date` (`today` is today's `YYYY-MM-DD`): where it goes,
/// `diary_dir/YYYY-MM/YYYY-MM-DD.md`, and what it starts with, a
/// frontmatter with its date and then `template`.
pub fn new_diary(diary_dir: &str, date: &str, today: &str, template: &str) -> (r: (String, String))
    requires
        byte_prefix(diary_day(date@, today@), 7) is Some,
    ensures
        ({
            let d = diary_day(date@, today@);
            &&& r.0@ == diary_dir@ + "/"@ + byte_prefix(d, 7)->Some_0 + "/"@ + d + ".md"@
            &&& r.1@ == "---\ndate: "@ + d + "\n---\n\n"@ + template@
        }),
{
    let dc = chars_of(date);
    let d = if date_only_exec(&dc) {
        dc
    } else {
        chars_of(today)
    };
    let month = match crate::text::byte_prefix_exec(&d, 7) {
        Some(m) => m,
        None => Vec::new(),
    };
    let mut rel = chars_of(diary_dir);
    push_all(&mut rel, &chars_of("/"));
    push_all(&mut rel, &month);
    push_all(&mut rel, &chars_of("/"));
    push_all(&mut rel, &d);
    push_all(&mut rel, &chars_of(".md"));
    let mut text = chars_of("---\ndate: ");
    push_all(&mut text, &d);
    push_all(&mut text, &chars_of("\n---\n\n"));
    push_all(&mut text, &chars_of(template));
    (string_of(&rel), string_of(&text))
}

// ───────────────────────── folders ─────────────────────────

/// A new folder named `name` (made safe) in `parent` (without slashes at
/// its ends; the notes folder when not given): its path, or why it cannot
/// be made there.
pub fn new_folder(notes_dir: &str, parent: Option<String>, name: &str) -> (r: Result<String, String>)
    ensures
        ({
            let clean = sanitize_title_spec(name@);
            let base = match crate::ai::opt_str(parent) {
                Some(p) => if trim(p).len() > 0 {
                    trim_slashes(p)
                } else {
                    notes_dir@
                },
                None => notes_dir@,
            };
            if clean.len() == 0 {
                r matches Err(e) && e@ == "文件夹名不能为空"@
            } else if !under_notes(notes_dir@, base) {
                r matches Err(e) && e@ == "只能操作「笔记」目录下的文件夹"@
            } else {
                r matches Ok(p) && p@ == base + "/"@ + clean
            }
        }),
{
    let clean = sanitize_title(name);
    if chars_of(clean.as_str()).len() == 0 {
        return Err("文件夹名不能为空".to_owned());
    }
    let base = match parent {
        Some(p) => if trim_exec(&chars_of(p.as_str())).len() > 0 {
            trim_slashes_exec(p.as_str())
        } else {
            chars_of(notes_dir)
        },
        None => chars_of(notes_dir),
    };
    let base_s = string_of(&base);
    match guard_under_notes(notes_dir, base_s.as_str()) {
        Err(e) => Err(e),
        Ok(()) => {
            let mut out = base;
            push_all(&mut out, &chars_of("/"));
            push_all(&mut out, &chars_of(clean.as_str()));
            Ok(string_of(&out))
        },
    }
}

/// The new name of the folder at `rel` renamed to `name` (made safe), or
/// why it cannot be renamed: it is not under the notes folder, or the name
/// is empty.
pub fn folder_rename_target(notes_dir: &str, rel: &str, name: &str) -> (r: Result<String, String>)
    ensures
        ({
            let clean = sanitize_title_spec(name@);
            if !under_notes(notes_dir@, rel@) {
                r matches Err(e) && e@ == "只能操作「笔记」目录下的文件夹"@
            } else if clean.len() == 0 {
                r matches Err(e) && e@ == "文件夹名不能为空"@
            } else {
                r matches Ok(n) && n@ == clean
            }
        }),
{
    match guard_under_notes(notes_dir, rel) {
        Err(e) => Err(e),
        Ok(()) => {
            let clean = sanitize_title(name);
            if chars_of(clean.as_str()).len() == 0 {
                Err("文件夹名不能为空".to_owned())
            } else {
                Ok(clean)
            }
        },
    }
}

/// Why a folder named `clean` cannot be made or renamed to: one exists.
pub fn folder_taken(clean: &str) -> (r: String)
    ensures
        r@ == "已存在同名文件夹："@ + clean@,
{
    let mut out = chars_of("已存在同名文件夹：");
    push_all(&mut out, &chars_of(clean));
    string_of(&out)
}

// ───────────────────────── a diary's frontmatter ─────────────────────────

/// What serde_yaml makes of editing the YAML text `fm`: whether it reads
/// as a mapping; if so, the number of its entries once the string field
/// `key` is set to `value` (removed when `value` is `None`), and the
/// mapping then written out by `serde_yaml::to_string` (empty text if that
/// fails).
pub uninterp spec fn yaml_edited(fm: Seq<char>, key: Seq<char>, value: Option<Seq<char>>) -> (
    bool,
    nat,
    Seq<char>,
);

pub open spec fn opt_view(o: Option<&str>) -> Option<Seq<char>> {
    match o {
        Some(v) => Some(v@),
        None => None,
    }
}

/// Parses `fm` with `serde_yaml::from_str`; where that is a mapping, sets
/// or removes `key` with `Mapping::insert` / `Mapping::remove` and gives
/// `Mapping::len` and `serde_yaml::to_string` of the result. Claims only
/// that the result is the named function of the arguments.
#[verifier::external_body]
fn yaml_edit(fm: &str, key: &str, value: Option<&str>) -> (r: (bool, usize, String))
    ensures
        yaml_edited(fm@, key@, opt_view(value)) == (r.0, r.1 as nat, r.2@),
{
    let mut map = match serde_yaml::from_str::<serde_yaml::Value>(fm) {
        Ok(serde_yaml::Value::Mapping(m)) => m,
        Ok(_) => return (false, 0, String::new()),
        Err(_) => return (false, 0, String::new()),
    };
    let k = serde_yaml::Value::String(key.to_string());
    match value {
        Some(v) => { map.insert(k, serde_yaml::Value::String(v.to_string())); },
        None => { map.remove(k); },
    }
    (true, map.len(), serde_yaml::to_string(&serde_yaml::Value::Mapping(map)).unwrap_or_default())
}

/// The frontmatter as it is edited: its text when it is there and not
/// blank, else an empty mapping (`{}`); an edit of text that does not read
/// as a mapping starts again from the empty mapping.
pub open spec fn meta_edit(fm: Option<Seq<char>>, key: Seq<char>, v: Option<Seq<char>>) -> (bool, nat, Seq<char>) {
    let src = match fm {
        Some(f) => if trim(f).len() > 0 {
            f
        } else {
            "{}"@
        },
        None => "{}"@,
    };
    if yaml_edited(src, key, v).0 {
        yaml_edited(src, key, v)
    } else {
        yaml_edited("{}"@, key, v)
    }
}

/// The document `content` with its frontmatter field `key` set to `value`
/// (removed when `value` is blank): frontmatter that is blank, no YAML or
/// no mapping counts as an empty mapping; the edited mapping, then the body
/// without the line breaks it started with; the body alone when the
/// mapping is left empty.
pub open spec fn with_meta_spec(content: Seq<char>, key: Seq<char>, value: Seq<char>) -> Seq<char> {
    let (fm, body) = split_fm_spec(content);
    let v = if trim(value).len() == 0 {
        None
    } else {
        Some(value)
    };
    let e = meta_edit(fm, key, v);
    if e.1 > 0 {
        "---\n"@ + e.2 + "---\n\n"@ + trim_start_chars(body, seq!['\n', '\r'])
    } else {
        body
    }
}

pub fn with_meta(content: &str, key: &str, value: &str) -> (r: String)
    ensures
        r@ == with_meta_spec(content@, key@, value@),
{
    let (fm, body) = split_frontmatter(content);
    let v = if trim_exec(&chars_of(value)).len() == 0 {
        None
    } else {
        Some(value)
    };
    let src: &str = match &fm {
        Some(f) => if trim_exec(&chars_of(f.as_str())).len() > 0 {
            f.as_str()
        } else {
            "{}"
        },
        None => "{}",
    };
    let mut e = yaml_edit(src, key, v);
    if !e.0 {
        e = yaml_edit("{}", key, v);
    }
    let (_, n, y) = e;
    if n > 0 {
        let mut out = chars_of("---\n");
        push_all(&mut out, &chars_of(y.as_str()));
        push_all(&mut out, &chars_of("---\n\n"));
        let mut nl: Vec<char> = Vec::new();
        nl.push('\n');
        nl.push('\r');
        assert(nl@ =~= seq!['\n', '\r']);
        push_all(&mut out, &crate::text::trim_start_chars_exec(&chars_of(body.as_str()), &nl));
        string_of(&out)
    } else {
        body
    }
}

} // verus!
