# wtd

A terminal program that watches every worktree of a git repository and shows what has changed in
each of them: the cumulative diff since the common ancestor with the base branch, what is not
committed yet, or a single commit.

- `src/` is the library, in Verus: reading what git prints, the file tree, documents made of diffs,
  word marks and syntax colors, wrapping, the state of the program and its keys, and what is drawn
  where. Every function states what it returns, and what holds of several of them together stands
  as proof functions named `law_...`.
- `app/` is the program around it: arguments, running git, the terminal, the clock, the file
  system watcher, and the thread that colors documents.
- `tests/` runs the library on concrete values.
