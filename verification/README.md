# kakfiletree

A clickable, filterable file tree for [Kakoune](https://kakoune.org), shown
in a terminal split with ratatui. Its logic is verified with Verus.

## Layout

- `src/` — the verified library
  - `tree.rs`: the tree built from a directory listing (sorted with
    directories first, then by lowercase name), expanding, collapsing,
    re-reading, and the flat list of visible rows under the hidden-name
    setting and a case-insensitive substring filter
  - `app.rs`: the state of the view (rows, selection, scrolling, filter,
    prompts) and its operations, each specified over the state's value
  - `input.rs`: what each key and mouse event does, and the outside work
    (open a file, re-read the tree, carry out a prompt's action) it leaves
    to the caller
  - `git.rs`: reading `git status --porcelain` into file statuses and the
    directories holding changes
  - `view.rs`: row text and colours, the status line, the help popup's place
  - `kak.rs`: the command that opens a file in the Kakoune client
  - `text.rs`, `fspath.rs`: character helpers, and the std path operations
    the logic relies on
  - `laws.rs`: properties across operations (toggling twice, filtering,
    selection always on a row, ordering of listings, ...)
- `app/` — the program: command line, terminal, drawing, reading the file
  system, running `git` and `kak`, and carrying out file operations
- `tests/` — tests of the library on concrete values

## Usage

From Kakoune inside tmux, run `:kakfiletree` to open the tree in a left
split. `j`/`k` move, `l`/Enter open, `h` collapses or goes to the parent,
`/` filters, `n`/`N` create a file or directory, `d` deletes (confirm with
`y`), `r` renames, `p` copies, `y` shows the path, `.` shows hidden files,
`R` re-reads the tree, `?` shows the keys, `q` quits.
