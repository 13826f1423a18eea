# codex_provider_sync

A desktop tool that keeps the Codex home directory (`~/.codex`) consistent
with the provider named at the root of `config.toml`: it rewrites the
`session_meta` record of every rollout file, updates the provider columns and
the session metadata of the SQLite state, repairs the workspace roots of
Codex Desktop's global state, and makes and restores backups.

## Layout

- `src/` — the verified library (Verus): what the tool computes from the
  files and the database (the texts it writes, the statements it runs, the
  counts it reports), with contracts:
  - `text` — character-level text operations (trimming, search, order,
    decimal rendering, joining);
  - `paths` — comparable and desktop forms of workspace paths, duplicate
    removal, resolution against the threads' working directories;
  - `json` — JSON values with sorted object members, reading and setting
    members;
  - `rollout`, `records` — the first line of a rollout file and its records;
  - `counts`, `collection` — provider counts and everything a scan gathers;
  - `workspace` — the repair of the workspace roots;
  - `sqlite`, `sync`, `cwdstats`, `visibility` — the statements run against
    the state database and what is made of their results;
  - `config`, `backup` — `config.toml`, backup locations, listing and
    metadata;
  - `laws` — properties that relate several functions.
- `tests/` — tests of the library on concrete values.
- `app/` — the Tauri program: the file system, the SQLite connection (the
  transaction and the order of the statements), JSON parsing and writing,
  the clock and the home directory, around the library.
