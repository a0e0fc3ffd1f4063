# gundi

A scanner for code debt comments (`TODO`, `FIXME`, `HACK`, `BUG`, `XXX`)
that tells, through `git blame`, who wrote each one and how many days ago.

The library under `src/` is verified with Verus:

- `text` — lines, words, trimming, decimal integers, padding, joining, all
  stated over the characters of the strings;
- `types` — comment kinds, calendar days, debt items, summaries;
- `scanner` — matching the debt pattern on the lines of a file;
- `blame` — reading `git blame --porcelain` output and putting authors and
  ages onto items;
- `filter` — filtering by kind, author and age, and ordering oldest first;
- `output` — the terminal table, Markdown, and the summary;
- `cli` — options and the decisions taken from them (filters, report kind,
  the `--fail-on` threshold).

`app/` holds the program around it: argument parsing, walking the directory,
reading files, running git, JSON output and the exit codes.
