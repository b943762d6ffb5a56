# appoptr

A daemon that keeps the threads of Android applications on chosen CPUs and tunes their memory group,
utilisation clamp and nice value. The library under `src/` holds its logic, verified with Verus; the
program under `app/` reads and writes files, `/proc` and control groups, and serves the panel on
`127.0.0.1:8889`.

| Module | What it holds |
|---|---|
| `text` | text as sequences of characters: trimming, searching, splitting, numbers |
| `json` | JSON documents, read and written by `serde_json` |
| `config`, `rules` | the line grammar of the rule file, and reading the rules out of it |
| `rule_edit` | setting, deleting, renaming and cloning rules in the text of the file |
| `rule_laws`, `edit_laws`, `rename_laws`, `delete_laws` | what the edits do to the rules that the file states |
| `repeat_laws`, `file_laws` | what an edit does when it is made again, and what it answers of the file as it was |
| `plain_laws` | the laws of setting, removing and renaming, under conditions on the lines of the file |
| `tuning`, `tuning_laws` | tuning documents: reading, checking, writing, warnings |
| `tuning_clone` | giving the tuning of one application to another |
| `apply` | what is done about a task: memory group, clamp, nice |
| `cpuset` | sets of CPUs and their names |
| `cache` | the tasks that were seen |
| `settings` | the settings file |
| `suggest` | suggestions for names |
| `web`, `api`, `panel` | requests to the panel and their answers |
