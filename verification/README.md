# notebox

A terminal browser for notes kept as folders under `~/.everycom/notebox/note`. A folder
holding an `info` file (JSON with the note's saved labels) is a note; its text is the
file `note` beside it, and files under its `att` folder are its attachments. Notes are
listed, selected, labelled, searched, created and deleted with one-line commands.

Layout:

- `src/` — the verified library, checked with Verus:
  - `text.rs`: texts as character sequences — splitting, joining, path pushing, number parsing;
  - `order.rs`: the order names are listed in, and sorting without duplicates;
  - `store.rs`: the note store (notes, labels, attachments) and its laws;
  - `info.rs`: what a note's files give — labels earned by its text, attachment paths;
  - `timefmt.rs`, `sqlite.rs`: the calls into `chrono` and `rusqlite` (pattern matching, and
    the copy of the store that a `where` query runs on);
  - `cmd.rs`: reading a typed line as a command;
  - `ctx.rs`: the browser's state and every command's effect on it, with the laws that
    tie the commands together.
- `app/` — the program around it: reading the note folder and standard input, printing,
  writing `info` files, running the editor.
- `tests/` — tests of the library through its public interface.
