# mnesphere

A local-first personal knowledge vault: notes, diaries, habit check-ins and a
task list, all kept as plain Markdown files, with an optional AI chat drawer
and an optional GitHub sync.

The library under `src/` holds the logic and is verified with Verus: each
public function states what it returns in its contract, and the laws that tie
the operations together are public proof functions (`law_*`).

- `text`, `strmap`, `unicode` — sequences of characters, a small string map,
  the character classes the parsers use.
- `note`, `index`, `search`, `tree`, `diary`, `docs` — frontmatter, tags,
  links, word counts, the note index, search and snippets, the notes tree,
  diaries by month, and the paths and texts of new or renamed documents.
- `task`, `task_laws` — the task list file: reading, writing back line by
  line, finding a task again after its line moved.
- `habit`, `habit_list`, `habit_laws`, `calendar` — check-in states, month
  files, month views, streaks and statistics; days as chrono reads them.
- `sync`, `github`, `report` — the sync plan between the vault, the last
  synced tree and the remote, and what the GitHub API answers mean.
- `ai` — the chat prompt and the streamed answer, read chunk by chunk.
- `vault`, `config`, `state` — paths inside the vault, pasted images,
  settings, and the app's memory of its own writes.

`app/` is the command-line program around the library: file and network
I/O, the keyring, the file watcher, and the serde copies of the library's
types. `tests/` runs the library on concrete values.
