# nightwhale

NightWhale is an idea exchange: problems are searchable units of intent,
ideas are peer candidate solutions (never ranked), and a local ledger in
`~/.nightwhale/` records which ideas the user bought, improved or rejected.

Layout:

- `src/` — the verified library.
  - `text.rs`: Unicode whitespace, trimming, words, substring search,
    joining, lower-casing and the lexicographic order of strings.
  - `paths.rs`: joining path components; flattening an idea id into one
    directory name.
  - `model.rs`: problems, ideas, ledger entries and the ledger, a map kept in
    ascending key order, with the buy / improve / uninstall updates.
  - `registry.rs`: the registry's file layout, stable sorting by slug,
    finding an idea by id, keyword search.
  - `local_repo.rs`: the layout of `~/.nightwhale/`, the plan for syncing the
    registry with git, recording purchases and verdicts, provenance notes.
  - `commands.rs`: status markers and the idea proposal template.
- `tests/` — tests of the library on concrete values.
- `app/` — the command-line program: argument parsing, files, yaml and json,
  git, and printing.
