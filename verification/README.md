# fussr

A terminal tool for staging files in a git repository, shown as a tree.

- `src/` is the verified library: the file tree (building, sorting,
  flattening, finding and collapsing nodes), fuzzy scoring and search, the
  application state and what every key does to it, the git decisions (status
  flags, file lists, incoming changes, command lines, error wording) and the
  text and segments drawn on screen. Each public function states its result in
  its contract, and the laws that tie functions together are public proof
  functions.
- `app/` is the program around it: command-line parsing, git2 and the git
  command, the terminal and its event loop, and drawing with ratatui.
- `tests/` runs the library on concrete values.
