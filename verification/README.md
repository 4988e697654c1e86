# justpkg

A small manager for packages built from git repositories: each package is
pinned to a commit, installed and uninstalled by user scripts, and
installed after the packages it depends on.

- `src/` is the library, with the proofs of its contracts: package names and the
  `name@ref` form, URL normal forms and repository keys, SHA-256 digests,
  commit ids, the choice of a remote reference, the install order, what to
  do with a checkout after a failed script, build
  outputs, and the package tables with the operations the commands perform
  on them.
- `app/` is the command-line program around it: argument parsing, the
  configuration files, git, the network and the install scripts.
- `tests/` runs the library on concrete values.
