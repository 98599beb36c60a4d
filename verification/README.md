# nix2flatpak

Nix packages as Flatpak bundles, with the logic of the conversion verified by
Verus.

The conversion has three stages:

1. **Index the runtime.** The libraries, executables and data files of a Flatpak
   runtime are listed in a JSON index.
2. **Analyze the closure.** The files of each store path are compared with the
   index. What the runtime provides is dropped, store paths that only dropped
   ones refer to are dropped too, and the result is a JSON plan.
3. **Rewrite for Flatpak.** What the plan keeps is copied below `/app`, and the
   paths in ELF files, compiled wrappers, scripts, desktop files and D-Bus
   services are rewritten.

## Layout

- `src/` is the library. Every function in it has a contract that Verus proves.
  It does no input or output: it takes what was read and returns what is to be
  done.
  - `text`, `bytes`, `order`, `table`, `pairs`, `json`: the data that the rest
    works on.
  - `pattern`, `elf`, `json_text`: regular expressions, ELF files and the text of
    JSON, read by the `regex`, `goblin` and `serde_json` crates. The contracts of
    these calls are trusted, as are those of `String::from_utf8_lossy` in `index`
    and of `String::push` in `text`.
  - `places`, `index`, `metadata`, `index_json`: the first stage.
  - `store`, `closure`, `version`, `classify`, `rewrites`, `orphans`, `scan`,
    `plan`, `plan_json`: the second stage.
  - `elf_paths`, `wrapper`, `text_files`, `compat`: the third stage.
- `tests/` runs the library on examples.
- `app/` is the program: arguments, files, directories, `nix-store` and
  `patchelf`.

Proof functions whose names begin with `law_` state what holds of the library as
a whole, such as that a plan is read back as it was written
(`plan_json::law_plan_round_trip`), that files which the runtime provides are
dropped (`classify::law_provided_files_are_dropped`), or that no rewritten
library path leads into the Nix store (`elf_paths::law_rpath_entries`).
