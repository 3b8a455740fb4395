# statusline

A three-line terminal status line for an AI coding session: model, context
use and cache hit rate; rate limits and session time; folder, git state and
cost. The session payload arrives as JSON on stdin.

The library (`src/`) is verified with Verus:

- `text` — characters, white space, trimming, decimal numerals.
- `git` — reading `git status --porcelain=v2 --branch` output.
- `style` — colours, ANSI painting, the ten-cell gauge, money, effort labels.
- `input` — the text parts of the payload, and byte-order marks.
- `layout` — model name, folder label, the segments and the whole line.
- `clock` — rate-limit segments, with reset times from `chrono`.

`app/` is the program around it: stdin, the JSON payload (`serde`), the
floating-point figures, the `git` process and stdout.
