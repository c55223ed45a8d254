# Jello

The decision core of a page-first web browser for Windows, written in Rust and proved with Verus,
and the browser around it.

- `src/` is the library. It decides: what a typed line means, which tabs keep their pages, where a
  new tab goes in its window, what the palette offers, what keys do, how packages of extensions are
  read, what is written to the database. Times, settings and rows of the database are handed to it;
  what it answers is what is then to be done. Every function states in its contract what it gives
  back, and what holds of several of them together is stated in the proof functions named `law_...`.
- `app/` does what the library decides: windows and pages (Tauri, WebView2), the database (SQLite),
  the network, files, the clipboard and the registry. It runs on Windows.
- `tests/` runs the library.

What is taken from other crates inside `src/` goes through a few functions whose contracts are not
proved; their doc comments name the function that they call and say what is claimed of it. They are
in `archive.rs` (`zip`), `capture.rs` (`image`), `json.rs` (`serde_json`), `extensions.rs` (`sha2`),
`palette.rs` (`nucleo-matcher`), and, for the standard library, `text.rs` and `deeplink.rs`.

| Module | Contents |
| --- | --- |
| `search`, `deeplink` | what a typed line or a link means |
| `pool`, `tabs`, `incognito`, `sessions`, `fractional_index` | tabs and their pages |
| `palette`, `rank` | the command palette |
| `chords`, `hotkeys`, `view`, `platform` | keys, pages and the edges of windows |
| `extensions`, `archive`, `json` | browser extensions |
| `capture` | pictures of the screen |
| `db` | what is kept on record |
| `app`, `windows`, `settings` | the program as a whole |
| `text`, `ipc_types` | strings and shared values |
