# 席间索 / table-canon

A search library for the notes of a tabletop game: it reads documents (Markdown, plain text, HTML,
Word), splits them into entries, indexes them by words, Chinese characters and pinyin, and finds the
entry that a half-remembered remark at the table is about.

## Layout

- `src/`: the library, verified with Verus. What each function returns is stated in its contract;
  what holds across functions stands as public proof functions beside them.
- `src/outside.rs`: the calls into other crates (hashing, hexadecimal text, the pinyin table,
  regular expressions, character sets, JSON lists) with what is taken on trust of each.
- `tests/`: tests of the library on concrete values.
- `app/`: the desktop program round the library: files, SQLite store, embedding model, language
  model service and window.

## Dependencies

`app/` draws its window with `eframe`, which leaves the choice of a window backend to `winit`. The
line for `winit` in `Cargo.toml` switches the X11 backend on; nothing calls the crate directly.
