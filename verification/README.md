# rust_grep

Searches the lines of text files for a keyword and shows the hits, page by
page, in a terminal viewer.

- `src/` is the verified library (Verus): the byte-level keyword search,
  the result container and its paging, the viewer's key handling as a state
  machine, the split of a hit line into plain and highlighted pieces, and
  the decisions taken while reading files (format by extension, size
  limit, line splitting, error texts).
- `app/` is the program around it: command-line arguments, reading from
  disk, and drawing in the terminal with ratatui and crossterm.
- `tests/` exercises the library on concrete values.
