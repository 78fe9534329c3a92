# mmake

A small Makefile-like build tool. A build file declares variables (`:=`, `?=`, `+=`),
targets with dependencies and recipes, and per-target directives (`@watch`, `@output`,
`@always`); targets run in parallel, dependencies first, and are skipped when their
fingerprint (a SHA-256 over their watched files, their dependencies' fingerprints,
their recipe and their outputs) is unchanged and their outputs exist.

## Layout

- `src/` is the library, verified with Verus:
  - `text`, `collections`: character-level string helpers and insertion-ordered string
    maps and sets, with their models.
  - `model`: targets, projects and the dependency graph (paths, reachability, cycles).
  - `expand`, `parser`: variable expansion and the build-file parser, a step machine fed
    one source file at a time; a parsed project has no unknown dependency and no cycle.
  - `fingerprint`: fingerprints of targets and resolution of watch patterns.
  - `paths`: path components and their order, and the sorted, repeat-free list of
    watched files.
  - `job`: the instrumented shell script of a recipe and the splitting of its output at
    step markers.
  - `executor`: gathering the targets to build and the scheduler (which target may
    start, what a finished job changes), with its invariants.
  - `progress`, `cache`, `cli`: the progress bar's text, the saved build state, the
    command line.
- `app/` is the program around it: argument parsing, reading files, walking
  directories, running jobs on threads, drawing on the terminal, saving the state.
- `tests/` runs the library on concrete inputs.
