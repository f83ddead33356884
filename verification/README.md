# etop

A process viewer for macOS that is about power: which processes draw how much, now, on average over
two minutes and at most, and how that went over the last half day.

The library in `src/` holds everything that is decided or computed, and is verified with Verus. The
program in `app/` holds the terminal, the `top` processes, the threads and the files.

## Data

- Interactive: `top -l 0 -s 2 -o power -stats pid,command,power`, read line by line. The first table
  is skipped, for its powers mean nothing.
- `--dump-once`: `top -l 2 -s 0 -o power -stats pid,command,power`, of which the second table is
  read.
- The processes of `etop` itself and of its `top` are hidden.

## Keys

`q` quits, `j`/`k` and the arrows move the selection, `g`/`G` go to the first and the last row, `f`
types a filter (`Enter` applies it, `Esc` keeps the old one), `d` clears it, `p` pauses, `s` sorts by
the next figure, `r` shows the next range of a pinned process, `Enter` pins and unpins, `m` opens the
thresholds, `1` and `2` show and hide the graph and the table.

## Screen

The graph has about the top third and the table the rest, no less than eight rows. The details of a
pinned process open above the rows, within the table's part. A panel that is shown alone has the whole
screen, and the thresholds open in the middle of it.

## Modules

| Module | What it holds |
| --- | --- |
| `binary64`, `decimal` | double-precision numbers as bit patterns: arithmetic, order, decimal text |
| `text`, `lists`, `sort` | characters, lists, a stable sort |
| `top_parse` | reading what `top` prints |
| `history` | the recent power of processes and names |
| `persistence` | the archive in three tiers; bounding and cleaning what is kept |
| `codec`, `decoder`, `truncation` | the bytes of a saved session, also where they stop early |
| `archive_query`, `graph` | the archive as columns; columns as Braille dots |
| `settings`, `app_state`, `app_laws` | the session, its keys, and what holds of it |
| `layout`, `chips`, `ui`, `ui_table`, `screen` | what the screen shows, as a list of things to draw |
| `collector` | keeping a sampler running, step by step |
| `cli` | the command line, and the rows that are printed once |

Proof functions whose names start with `law_` state what holds of several functions together.

## What is not proved

`String::push` and `String::pop`, `str::to_lowercase`, `String::from_utf8`, the clock and ratatui's
`Layout::split` are taken at their word; the comment above each says what for. The program in `app/`
is ordinary Rust.
