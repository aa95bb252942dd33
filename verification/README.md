# fish_reader

Two parts of an interactive shell's line reader, verified with Verus.

- The native left prompt: `user@host`, the shortened working directory, the branch of the git
  repository that the directory belongs to, and the status of a failed command
  (`src/native_prompt.rs` and `src/native_prompt/`).
- The path jump: an index of the paths that earlier commands used, ranked by how often and how
  recently, a search in it, and paths quoted for the command line (`src/path_jump/`).

Both work on wide strings (`src/wide.rs`), on text cut at slashes (`src/segments.rs`) and on Unix
paths taken as text (`src/unix_path.rs`).

The library does no input or output. The search for a repository is a sequence of steps that say
what to look up next; `app/` looks it up in the file system, reads the variables and the clock,
ranks the paths that the shell has collected from its history, and hands in the shell's fuzzy
matching.
