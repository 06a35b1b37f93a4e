# tempest

A command-line mod manager for games on Thunderstore, built as a verified library and a thin
program around it.

- `src/` is the library, written in Verus: profile manifests and their mods, the dependency
  tree of a lockfile, stable orderings, the decisions of each command (which version to add,
  what to import or export, when to refresh the mod index, how to retry a download, what to
  report), `.gitignore` generation and the package store's path rules. Every function carries
  a contract; laws that span several functions are public proof functions (`law_*`).
- Verus proves every contract except those of the small wrappers marked
  `#[verifier::external_body]`, whose bodies call `semver`, `humantime`, `indexmap`,
  `thunderstore`, `uuid` or std (string collection, lowercasing, `is_alphanumeric`), and of
  the outside types they declare. Their contracts are trusted: each doc comment says what it
  claims of the outside function, and the names declared with `uninterp` stand for outside
  results that are not spelled out.
- `app/` is the program: argument parsing, logging, files, network, prompts, and the package
  resolution, download and installation work done by `loadsmith`. It converts between the
  outside crates' types and the library's and leaves the decisions to the library.
- `tests/` runs the library on concrete values.
