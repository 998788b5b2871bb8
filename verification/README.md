# simlogtail

A verified library behind two small log viewers, `simhead` and `simtail`:
they show the first or the last lines of log files, write the millisecond
timestamps found between square brackets as dates, and `simtail` can follow a
file as it grows.

- `src/` is the library, verified with Verus:
  - `text` — Unicode whitespace, trimming, blank lines;
  - `number` — reading integers and floating-point literals, writing zero-padded decimals;
  - `ring` — the fixed-capacity ring buffer that keeps the last lines;
  - `lines` — choosing the first or last lines, optionally without blank ones;
  - `stamp` — splitting a line around its timestamp and writing the date;
  - `color` — terminal colours and their ANSI codes;
  - `cli` — the command-line option parser;
  - `monitor` — the decisions of the follow loop;
  - `clock` — the current year.
- `app/main.rs` holds the programs: file reading, the terminal, the keyboard,
  and the calls to the `simcli`, `simcolor` and `simtime` crates.
- `tests/` exercises the library.
