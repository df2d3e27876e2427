# letur_project

The rules of Letur's window — a pane that shows the typeset PDF of a markdown
project while it is written — as a verified library, with the hosts around it.

- `src/` is the library, every function of it proved by Verus against its
  contract:
  - `path.rs`, `text.rs`, `panel.rs` — paths read segment by segment, the
    texts the window shows, and the order the panel lists files in;
  - `files.rs` — a project held in memory, spelled one way;
  - `document.rs` — one compile's reads and the sentences they refuse in, the
    panel's rows, the main a project opens on;
  - `remote.rs` — images named by URL: the sites allowed, where each fetch
    stands, and the line the window draws;
  - `preview.rs` — the pane's state and every decision a command makes on it;
  - `store.rs` — the three files kept in Application Support.
- `tests/` runs the library on concrete cases.
- `app/` is what only a host can do: the disk, the typesetting engine
  (`md2pdf-core`), the network, and the browser worker.
