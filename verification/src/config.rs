//! Settings that are not content: the repository, behaviour, the editor's
//! folders, the colour presets, and bringing old settings up to date.

use vstd::prelude::*;
use crate::text::{chars_eq, chars_of, is_suffix, push_all, string_of};

verus! {

/// The repository the vault is kept in.
#[derive(Clone, Debug)]
pub struct GithubConfig {
    /// `owner/repo`
    pub repo: String,
    pub branch: String,
    /// when the last synchronisation ended, local time
    pub last_sync: String,
    /// the commit the files on disk correspond to
    pub last_commit: String,
}

impl Default for GithubConfig {
    fn default() -> (r: Self)
        ensures
            r.repo@ == ""@,
            r.branch@ == "main"@,
            r.last_sync@ == ""@,
            r.last_commit@ == ""@,
    {
        proof {
            reveal_strlit("");
        }
        GithubConfig {
            repo: String::new(),
            branch: "main".to_owned(),
            last_sync: String::new(),
            last_commit: String::new(),
        }
    }
}

/// How the app behaves.
#[derive(Clone, Debug)]
pub struct Behavior {
    /// closing the window hides it in the tray
    pub close_to_tray: bool,
    pub autostart: bool,
    /// started with the system, go straight to the tray
    pub start_hidden: bool,
    pub hide_panel_when_ai_open: bool,
    /// the view to start in: notes / diary / checkin / task
    pub default_activity: String,
    /// create (and open) today's diary at start
    pub auto_create_diary: bool,
    /// the order of the notes tree: `name` or `mtime`
    pub note_sort: String,
}

impl Default for Behavior {
    fn default() -> (r: Self)
        ensures
            r.close_to_tray,
            !r.autostart,
            !r.start_hidden,
            r.hide_panel_when_ai_open,
            r.default_activity@ == "diary"@,
            r.auto_create_diary,
            r.note_sort@ == "name"@,
    {
        Behavior {
            close_to_tray: true,
            autostart: false,
            start_hidden: false,
            hide_panel_when_ai_open: true,
            default_activity: "diary".to_owned(),
            auto_create_diary: true,
            note_sort: "name".to_owned(),
        }
    }
}

/// The editor and where things go in the vault.
#[derive(Clone, Debug)]
pub struct Editor {
    pub default_mode: String,
    pub autosave_ms: u64,
    pub diary_dir: String,
    pub notes_dir: String,
    pub checkin_dir: String,
    pub task_dir: String,
    pub attachments_dir: String,
    /// what a new diary starts with (empty by default)
    pub diary_template: String,
}

impl Default for Editor {
    fn default() -> (r: Self)
        ensures
            r.default_mode@ == "edit"@,
            r.autosave_ms == 900,
            r.diary_dir@ == "日记"@,
            r.notes_dir@ == "笔记"@,
            r.checkin_dir@ == "打卡"@,
            r.task_dir@ == "任务"@,
            r.attachments_dir@ == "附件"@,
            r.diary_template@ == ""@,
    {
        proof {
            reveal_strlit("");
        }
        Editor {
            default_mode: "edit".to_owned(),
            autosave_ms: 900,
            diary_dir: "日记".to_owned(),
            notes_dir: "笔记".to_owned(),
            checkin_dir: "打卡".to_owned(),
            task_dir: "任务".to_owned(),
            attachments_dir: "附件".to_owned(),
            diary_template: String::new(),
        }
    }
}

impl Editor {
    /// The folder a module keeps its files in (`diary`, `notes`, `checkin`,
    /// `task`, `attachments`); any other name stands for itself.
    pub fn sub(&self, name: &str) -> (r: String)
        ensures
            r@ == (if name@ == "diary"@ {
                self.diary_dir@
            } else if name@ == "notes"@ {
                self.notes_dir@
            } else if name@ == "checkin"@ {
                self.checkin_dir@
            } else if name@ == "task"@ {
                self.task_dir@
            } else if name@ == "attachments"@ {
                self.attachments_dir@
            } else {
                name@
            }),
    {
        let n = chars_of(name);
        if chars_eq(&n, &chars_of("diary")) {
            self.diary_dir.clone()
        } else if chars_eq(&n, &chars_of("notes")) {
            self.notes_dir.clone()
        } else if chars_eq(&n, &chars_of("checkin")) {
            self.checkin_dir.clone()
        } else if chars_eq(&n, &chars_of("task")) {
            self.task_dir.clone()
        } else if chars_eq(&n, &chars_of("attachments")) {
            self.attachments_dir.clone()
        } else {
            name.to_owned()
        }
    }
}

/// The diary template that 0.1.1 and earlier shipped; a config that still
/// holds it is brought to the current (empty) one.
pub const LEGACY_DIARY_TEMPLATE: &'static str = "## 今天做了什么\n\n\n## 想法\n\n\n## 明天\n\n";

/// Brings the editor and behaviour settings of an older config up to date,
/// leaving what the user chose alone: the old shipped diary template goes,
/// and settings added later (known missing when empty) get their defaults.
/// Whether anything changed.
pub fn migrate_settings(editor: &mut Editor, behavior: &mut Behavior) -> (dirty: bool)
    ensures
        final(editor).diary_template@ == (if old(editor).diary_template@ == LEGACY_DIARY_TEMPLATE@ {
            ""@
        } else {
            old(editor).diary_template@
        }),
        final(behavior).default_activity@ == (if old(behavior).default_activity@.len() == 0 {
            "diary"@
        } else {
            old(behavior).default_activity@
        }),
        final(behavior).auto_create_diary == (if old(behavior).default_activity@.len() == 0 {
            true
        } else {
            old(behavior).auto_create_diary
        }),
        final(behavior).note_sort@ == (if old(behavior).note_sort@.len() == 0 {
            "name"@
        } else {
            old(behavior).note_sort@
        }),
        final(editor).diary_dir == old(editor).diary_dir,
        final(editor).notes_dir == old(editor).notes_dir,
        final(editor).checkin_dir == old(editor).checkin_dir,
        final(editor).task_dir == old(editor).task_dir,
        final(editor).attachments_dir == old(editor).attachments_dir,
        final(editor).default_mode == old(editor).default_mode,
        final(editor).autosave_ms == old(editor).autosave_ms,
        final(behavior).close_to_tray == old(behavior).close_to_tray,
        final(behavior).autostart == old(behavior).autostart,
        final(behavior).start_hidden == old(behavior).start_hidden,
        final(behavior).hide_panel_when_ai_open == old(behavior).hide_panel_when_ai_open,
        dirty == (old(editor).diary_template@ == LEGACY_DIARY_TEMPLATE@ || old(
            behavior,
        ).default_activity@.len() == 0 || old(behavior).note_sort@.len() == 0),
{
    let mut dirty = false;
    if chars_eq(&chars_of(editor.diary_template.as_str()), &chars_of(LEGACY_DIARY_TEMPLATE)) {
        editor.diary_template = Editor::default().diary_template;
        dirty = true;
    }
    if chars_of(behavior.default_activity.as_str()).len() == 0 {
        let d = Behavior::default();
        behavior.default_activity = d.default_activity;
        behavior.auto_create_diary = d.auto_create_diary;
        dirty = true;
    }
    if chars_of(behavior.note_sort.as_str()).len() == 0 {
        behavior.note_sort = Behavior::default().note_sort;
        dirty = true;
    }
    dirty
}

/// Settings the view sends back keep the synchronisation's own record
/// (when it last ran, which commit): only a synchronisation writes those.
pub fn keep_sync_record(incoming: &mut GithubConfig, current: &GithubConfig)
    ensures
        final(incoming).last_sync == current.last_sync,
        final(incoming).last_commit == current.last_commit,
        final(incoming).repo == old(incoming).repo,
        final(incoming).branch == old(incoming).branch,
{
    incoming.last_sync = current.last_sync.clone();
    incoming.last_commit = current.last_commit.clone();
}

// ───────────────────────── colour presets ─────────────────────────

/// The colours of a preset: (accent, accent2, bg, fg); `cyan` for any
/// unknown name.
pub open spec fn preset_spec(id: Seq<char>) -> (Seq<char>, Seq<char>, Seq<char>, Seq<char>) {
    if id == "catppuccin"@ {
        ("#cba6f7"@, "#94e2d5"@, "#1e1e2e"@, "#cdd6f4"@)
    } else if id == "gruvbox"@ {
        ("#fabd2f"@, "#b8bb26"@, "#282828"@, "#ebdbb2"@)
    } else if id == "tokyo"@ {
        ("#7aa2f7"@, "#bb9af7"@, "#1a1b26"@, "#c0caf5"@)
    } else if id == "nord"@ {
        ("#88c0d0"@, "#a3be8c"@, "#2e3440"@, "#eceff4"@)
    } else if id == "rose"@ {
        ("#f5a0b8"@, "#f2cdcd"@, "#191724"@, "#e0def4"@)
    } else {
        ("#22d3ee"@, "#5eead4"@, "#0a0e13"@, "#dbe6f0"@)
    }
}

/// The colours of a preset: (accent, accent2, bg, fg).
pub fn preset(id: &str) -> (r: (&'static str, &'static str, &'static str, &'static str))
    ensures
        (r.0@, r.1@, r.2@, r.3@) == preset_spec(id@),
{
    let i = chars_of(id);
    if chars_eq(&i, &chars_of("catppuccin")) {
        ("#cba6f7", "#94e2d5", "#1e1e2e", "#cdd6f4")
    } else if chars_eq(&i, &chars_of("gruvbox")) {
        ("#fabd2f", "#b8bb26", "#282828", "#ebdbb2")
    } else if chars_eq(&i, &chars_of("tokyo")) {
        ("#7aa2f7", "#bb9af7", "#1a1b26", "#c0caf5")
    } else if chars_eq(&i, &chars_of("nord")) {
        ("#88c0d0", "#a3be8c", "#2e3440", "#eceff4")
    } else if chars_eq(&i, &chars_of("rose")) {
        ("#f5a0b8", "#f2cdcd", "#191724", "#e0def4")
    } else {
        ("#22d3ee", "#5eead4", "#0a0e13", "#dbe6f0")
    }
}

/// The presets, in the order the settings list them.
pub open spec fn preset_ids() -> Seq<Seq<char>> {
    seq!["cyan"@, "catppuccin"@, "gruvbox"@, "tokyo"@, "nord"@, "rose"@]
}

/// A preset as the settings list it.
#[derive(Clone, Debug)]
pub struct PresetInfo {
    pub id: String,
    pub accent: String,
    pub accent2: String,
    pub bg: String,
    pub fg: String,
}

/// Every preset with its colours.
pub fn theme_presets() -> (r: Vec<PresetInfo>)
    ensures
        r@.len() == 6,
        forall|i: int|
            0 <= i < 6 ==> {
                let p = preset_spec(preset_ids()[i]);
                &&& (#[trigger] r@[i]).id@ == preset_ids()[i]
                &&& r@[i].accent@ == p.0
                &&& r@[i].accent2@ == p.1
                &&& r@[i].bg@ == p.2
                &&& r@[i].fg@ == p.3
            },
{
    let ids = ["cyan", "catppuccin", "gruvbox", "tokyo", "nord", "rose"];
    let mut out: Vec<PresetInfo> = Vec::new();
    let mut i: usize = 0;
    while i < 6
        invariant
            0 <= i <= 6,
            ids@.len() == 6,
            forall|k: int| 0 <= k < 6 ==> (#[trigger] ids@[k])@ == preset_ids()[k],
            out@.len() == i,
            forall|k: int|
                0 <= k < i ==> {
                    let p = preset_spec(preset_ids()[k]);
                    &&& (#[trigger] out@[k]).id@ == preset_ids()[k]
                    &&& out@[k].accent@ == p.0
                    &&& out@[k].accent2@ == p.1
                    &&& out@[k].bg@ == p.2
                    &&& out@[k].fg@ == p.3
                },
        decreases 6 - i,
    {
        let id = ids[i];
        let (a, a2, bg, fg) = preset(id);
        out.push(
            PresetInfo {
                id: id.to_owned(),
                accent: a.to_owned(),
                accent2: a2.to_owned(),
                bg: bg.to_owned(),
                fg: fg.to_owned(),
            },
        );
        i += 1;
    }
    out
}

// ───────────────────────── the config file, secrets ─────────────────────────

/// Where the config file is, in the app's config folder.
pub open spec fn config_path_spec(dir: Seq<char>) -> Seq<char> {
    if dir.len() == 0 || is_suffix("/"@, dir) {
        dir + "config.json"@
    } else {
        dir + "/config.json"@
    }
}

/// Where the config file is, in the app's config folder `dir`.
pub fn config_path(dir: &str) -> (r: String)
    ensures
        r@ == config_path_spec(dir@),
{
    let d = chars_of(dir);
    let mut out = chars_of(dir);
    if d.len() == 0 || d[d.len() - 1] == '/' {
        proof {
            reveal_strlit("/");
            if d@.len() > 0 {
                assert(d@.skip(d@.len() - 1) =~= "/"@);
            }
        }
        push_all(&mut out, &chars_of("config.json"));
    } else {
        proof {
            reveal_strlit("/");
            if is_suffix("/"@, d@) {
                assert(d@.skip(d@.len() - 1)[0] == d@[d@.len() - 1]);
            }
        }
        push_all(&mut out, &chars_of("/config.json"));
    }
    string_of(&out)
}

/// A secret counts as set when the store has it and it is not empty.
pub fn has_secret(stored: &Option<String>) -> (r: bool)
    ensures
        r == (stored matches Some(s) && s@.len() > 0),
{
    match stored {
        Some(s) => chars_of(s.as_str()).len() > 0,
        None => false,
    }
}

} // verus!
