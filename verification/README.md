# anime_tool

Tools around the Dandanplay danmaku network, ASS subtitles, Markdown `meta` blocks and
JSON paths, written as a Verus library with proved contracts and a thin layer of
ordinary Rust programs around it.

## Layout

- `src/` — the verified library.
  - `text`, `num`, `path` — characters, numbers and Unix paths with the meaning `str`,
    the integer parsers and `std::path` give them.
  - `json`, `json_path`, `json_select`, `json_format` — a plain JSON value, path
    resolution (`field`, `field[index]`, `field[key=value]`), the shape-keeping
    selections of `json_get` (arrays read item by item, `{a b}` groups) and the
    width-limited pretty printer.
  - `markdown`, `md_update`, `md_table`, `meta_map` — sections, `meta` blocks, named
    fenced blocks, writing JSON into a section, and turning a document into a table.
  - `ass`, `ass_merge` — the pieces of a danmaku ASS document, and the text side of
    merging a subtitle ASS with a danmaku ASS.
  - `api`, `cache`, `cli`, `config`, `media`, `prepare`, `sqlite`, `url_text` — request
    signing and reply checking, cache layout, option resolution, media sources, names and sizes,
    subtitle track naming, SQL text.
- `app/` — the programs (`ddp-match`, `ddp-anime`, `render-ass`, `merge-ass`,
  `ani-prepare`, `json_get`, `md_update`, `md2table`): argument parsing, files, HTTP,
  FTP, SQLite, FFmpeg, and the floating-point parts (comment placement, canvas scaling).
- `tests/` — tests of the library on concrete values.

Laws of the library are stated as public proof functions named `law_*`.
