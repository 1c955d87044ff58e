# jofi

A fast, typo-resistant application launcher for `.desktop` entries. The library is verified with
Verus; the program around it does the input and output.

## What the library does

- `desktop` reads desktop files, decides which entries are listed, and collects the entries of the
  applications directories.
- `search` normalises texts, scores entries against a query and ranks the results; `distance` is the
  edit distance behind it, `order` the stable listing order, and `ranking` states what holds of every
  search.
- `history` counts launches and reads and writes the history file.
- `launcher` turns the `Exec` line of an entry into a command, without a shell.
- `ui` is the state of the launcher window: keys, highlight, lines and sizes.
- `canvas` fills the background and blends glyphs.
- `telemetry` builds the records of the JSONL log, and `events` the fields of its events.
- `paths` says where files are; `report` shortens texts and sums timings; `text`, `table` and
  `unicode` are what the others stand on.

Every function states its result in terms of the mathematical functions beside it. Public proof
functions state what holds of several of them together: that discovered ids are unique, that a saved
history loads again, that a word with one typing error is still found, that the highlight always lies
in the list, that drawing keeps pixels premultiplied.

## What is taken on trust

`unicode` calls `std` and `unicode_normalization` for case, character classes and decomposition;
`launcher` calls `shell_words` to split and join command lines; `telemetry` fills objects of
`serde_json`; `text` pushes onto a `String`. The items that make those calls say what they rely on.

## The program

`app/` holds the command line, the files, the log, the Wayland window and the text layout. Sizes and
positions of text are floating-point numbers and stay there.
