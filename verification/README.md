# Cahier

Stylus notes on an Omarchy lectern: a shelf of notebook spines, and pages
of paper to write on. Notebooks live locally, in `~/.local/share/omacourses`
(or `$CAHIER_DATA`).

## Layout

- `src/` — the library, verified with Verus. It holds the rules of the
  program and proves them against their contracts:
  - `document` — the page grid of a notebook: unit cells, the `+` tabs on
    free edges, adding and tearing units, linked and separate sheets;
  - `library` — the shelf and the bin: slots, trashing, restoring,
    placing moved notebooks, stored pictures;
  - `shelf` — shelf order, selection, drag-and-drop targets, title search;
  - `controls` — what keys mean, and how the pen and the erasers change;
  - `tablet` — the stylus state driven by the Wayland tablet protocol;
  - `emoji` — colour-emoji icons read from a CBDT font (`cmap`, `CBLC`,
    `CBDT` tables);
  - `export` — PDF files of page pictures, PNG pages, export file names;
  - `look` — where the Omarchy theme is staged, theme names, `#rrggbb`;
  - `palette` — the theme's `colors.toml` (or the terminal's
    `alacritty.toml`) read into the desk's, the paper's and the inks'
    colours;
  - `undo`, `ink`, `text`, `picture`, `pressure` — smaller pieces.
- `app/` — the program around the library: the egui window, drawing in
  floating point, file storage with serde, colour blends, and the
  Wayland tablet connection.
- `tests/` — tests of the library.

## Run

```bash
cahier --help
cahier --data-dir
CAHIER_OPEN=Mindset cahier
```
