# thanatos

A Windows process and memory inspector. The library (`src/`) holds what the
inspector decides and computes, verified with Verus; the program (`app/`) opens
processes, reads their memory through the Windows API and draws the window with
egui.

Library modules:

- `text`: string building, number formatting, line splitting and searching.
- `scan`: printable-text runs, instruction and shell-code patterns, file
  signatures, byte counts.
- `region`: memory regions, the walk over a process's address space, pattern
  search over the regions read, statistics, the memory-map rows and filter.
- `batch`: reading a region in pieces.
- `analysis`: the findings reported for a region (full, quick and background
  analyses), password lines, compression and base64 previews.
- `tracker`: the analyses awaited and the findings stored per region.
- `process`: which processes are listed, searched and in what order.
- `hexview`: the rows of the hex viewer and of the memory view.
- `state`: the inspector's state apart from drawing.

Floating-point figures (entropy, compression ratio, byte shares) are computed
in `app/` from the counts and sizes that the library returns.
