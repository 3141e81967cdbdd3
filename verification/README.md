# xai_grok_plugin_marketplace

The skill marketplace behind `grok skill`: it finds skills in the skills.sh
registry, parses the many ways a user names a skill source, and installs,
updates and removes skills in a user or project scope while a lockfile
records where each one came from.

## Layout

- `src/` — the library, written in Verus and proved against its contracts.
  The exceptions are a few small trusted wrappers around calls into other
  crates and std (SHA-256, URL encoding, the clock, the home directory,
  `String::push`, `Duration::from_secs`); their contracts, where they have one, are
  taken as given and say no more than those crates document.
  - `skill_source` — parsing a source string (registry id, GitHub shorthand,
    git URL, local path) into what to fetch.
  - `skill_validate` — skill names as slugs, `SKILL.md` validation results,
    joining paths without escaping a root.
  - `skill_scope` — where the user and project scopes keep their skills.
  - `skill_lock` — the lockfile's records and the content hash of a skill tree.
  - `skill_registry` — registry URLs, search ranking, and the checks every
    downloaded skill passes before anything is written.
  - `skill_install` — the decisions of installing, updating and removing,
    including the install run that stops at the first failure.
  - `skill_cmd` — the command's arguments, output text, and how update,
    remove and info runs end.
  - `text`, `paths`, `order`, `sorting` — characters, paths, string order and
    stable sorting, stated over sequences.
- `tests/` — tests of the library.
- `app/` — the `grok skill` program: argument parsing, HTTP, the filesystem
  and printing around the library.
