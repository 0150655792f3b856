# scanlation

The core of a site-agnostic scanlation reader, verified with Verus: it finds
the title, the cover and the chapter list of a manga on any site, follows the
reading progress of a library of manga, and picks the render mode of the
desktop app.

## Layout

- `src/` is the verified library.
  - `heuristics`: chapter numbers and families of URLs and titles.
  - `extract`: title, cover and chapters of a page.
  - `db`: the manga list with its read state, held in memory.
  - `render_env`: the render-mode policy for Linux.
  - `number`: chapter numbers, which are exact decimals.
  - `text`, `address`, `page`, `pattern`, `error`: what the others are made of.
- `tests/` runs the library on examples.
- `app/` is ordinary Rust around the library: the SQLite file that keeps the
  manga list, the values for the frontend, the files and the environment that
  the render-mode policy reads and writes.

## What is proved

Every function of `src/` states what it returns. Beyond that, proof functions
named `law_...` state what holds across functions: that reading progress never
moves backward, that the NEW badge is shown only for a chapter that was not
read, that the chapters of a page come from links of its own site and are
complete and in order, that texts which differ only in their chapter share a
family, that an explicit render mode always wins, and more.

## What is trusted

Regular expressions, HTML and addresses are parsed by the crates `regex`,
`scraper` and `url`. What they return is named, not proved; the functions that
take the parsed values as arguments are proved for every value. One fact is
claimed of the chapter pattern: that it finds a plain `chapter-12` in a text
without earlier digits. A page must not be longer than the HTML parser can take
(`page_fits`). A few functions
of the standard library on strings and paths are specified in `text` and
`render_env`.
