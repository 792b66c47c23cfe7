# lore

Lore, the latent repository: a version control system that tracks intent
rather than code. Entries (units of intent) and commits are stored by
content address; branches, merges, remotes and a `materialize` command that
renders all recorded intent as a brief work as they do in git.

Layout:

- `src/` is the library, verified with Verus. A `Repo` value is the whole
  state of a repository (objects, refs, HEAD, index, config); every command
  is a function from one state to the next with a contract over the model
  of that state. Object ids are SHA-256 (through the `sha2` crate) of a
  preimage the library builds and specifies; JSON encoding, time formatting,
  argument parsing, ref resolution, merging, push planning and fetch walks
  are all proved against their specifications.
- `app/` is the `lore` binary: it reads the command line with the library's
  verified grammar (clap only renders help, the version and usage errors),
  reads `.lore/` from disk into a `Repo`, runs the command through the
  library, writes the result back, and speaks to remotes over the
  filesystem or HTTP.
- `tests/` exercises the library on concrete values.
