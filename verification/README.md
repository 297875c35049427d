# concat_edit

The editing core of a video editor, as a verified library: the project document,
the commands that edit it, undo and redo, and the decisions behind reading,
mixing, joining and drawing media. Every function states what it returns or
changes in its contract, and Verus proves the contracts.

## Layout

| Where | What |
| --- | --- |
| `src/model/` | The document: projects, timelines, clips, keys, filters, text, cutouts; tidying, and what tidying leaves (`tidiness.rs`); rides, carried onto a window (`ride.rs`), and the part of an ease that is left of one (`ease.rs`) |
| `src/model/{playing,replay,carried}.rs` | What a run of keys plays, and that it plays the same in a window: of one run, and of every property and effect of a clip |
| `src/model/{mended,regained}.rs` | That a run cut in two and merged plays what it did: of one run, and of a property's among a clip's |
| `src/model/{exact,nearly,bezier,parted,echo}.rs` | What that rests on: values as exact numbers, how far arithmetic on them strays, cubics and their stretches |
| `src/commands/` | Every edit as data (`command.rs`), what each does, and `apply.rs`, which runs one |
| `src/commands/{laws,naming,numbering,anchoring,honesty}.rs` | What holds of every command |
| `src/commands/{round_trips,rejoining,keyed,gaps}.rs` | What one command undoes of another, what a merge gives back of a split, with keys and without, how long a gap is |
| `src/editor.rs` | A session: one project, its undo and redo, gestures; and what holds of every session |
| `src/audio/` | Speed, gain and filter graphs of a mix; the state of a mix and of a join |
| `src/decode/` | Colour, options and filters of a decode; the state of a reader and its pacing |
| `src/peaks.rs`, `src/prefetch.rs`, `src/relay.rs` | Waveforms, the queue that decodes ahead, FFmpeg's log |
| `src/perf.rs`, `src/perf/` | Budgets, and the work that is timed against them |
| `src/number.rs`, `src/single.rs`, `src/digits.rs` | Binary64 and binary32 numbers, computed exactly and rounded once; numbers as decimal text |
| `src/rounding.rs` | How far arithmetic on numbers strays from arithmetic on their values |
| `src/timing.rs` | Exact ratios, timestamps, rotation |
| `src/text.rs`, `src/table.rs`, `src/find.rs`, `src/order.rs`, `src/shared.rs` | Text, maps by name, searching, sorting, shared values |
| `tests/` | The edit, the media logic and the laws on concrete values |
| `app/` | The program around the library: JSON, FFmpeg, threads, timing |

## Numbers

A `Number` holds the bits of a binary64 number, and a `Single` those of a
binary32 one. Sums, products, quotients and remainders are defined as the exact
result rounded to nearest, ties to even, so contracts speak of values and not of
a machine's registers.

## What is trusted

- `Arc::clone`, `Arc::ptr_eq` and `Arc::make_mut` (`src/shared.rs`): a clone is
  the value shared, two pointers to one value hold the same value, and what is
  written through an owner is what it holds.
- `String::push` (`src/text.rs`): it appends one character.
