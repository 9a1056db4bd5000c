# aero_mitosis

An autonomic build engine. It reads a repository's manifests into a graph of
packages, schedules the packages in wavefront bands, builds each one in a
copy-on-write sandbox, and repairs what breaks when it can.

The decisions are in a library written in Verus: functions in `src/` say in
contracts what they do, and Verus proves that they keep them. Nothing is said of
what a queue holds that threads share, or of the traits that users implement.
What touches the host (files, processes, threads, signals, floating-point
arithmetic) is in `app/`, an ordinary Rust program that asks the library what to
do next.

## The library

| Module | What it holds |
| --- | --- |
| `text` | lines, words, searching and number notation on characters |
| `float_bits` | order and clamping of double-precision numbers by their bits |
| `scm` | the package graph, TOML documents, manifests, discovery in a directory tree |
| `ast` | structural queries and feature vectors over tree-sitter syntax trees |
| `scheduler` | layering of a dependency relation, wavefront bands, the rules of the worker pool |
| `diagnostics` | causal gradients of a failure, normalized crash events |
| `virtualization` | file operations of an overlay workspace and what they do to its files, projected file system results |
| `self_healing` | the repair loop as a state machine |
| `pipeline` | a run over a repository: units, builds, restoring files, exit codes |

Functions called `law_...` are proofs of what holds of the library as a whole:
that every dependency stands in an earlier band, that a commit publishes the
upper layer or, once it is taken back, leaves the lower one with the files and
directories that it had, that only an acceptable candidate is committed, and so
on.

A repair works on a copy of the package inside the unit's sandbox. What it commits
goes to that copy; the repository is left as it was.

## Exit codes of the program

- `0`: every unit was built, or repaired.
- `1`: the repository cannot be read, its packages depend on one another in a
  circle, or the directory of a package is missing.
- `2`: a unit failed and could not be healed.
