# cull

Fullscreen triage for a directory of images. Images are shown one at a time, and
the chosen ones are moved into `keep` or `trash` by a rename. The server keeps no
list of images: every `next` is a fresh single pass over the source tree.

- `src/` is the library, verified with Verus: every decision the tool takes.
- `app/` is the program around it: file system, HTTP, environment.
- `tests/` run the library on concrete inputs.

## How the library meets the file system

The library does no input or output. A search, a listing or a move is a value that
says what it needs next (read this directory, ask for this file's time, rename this
file) and consumes the answer. `app/disk.rs` is the loop that answers from the disk;
`tests/triage.rs` answers from a tree in memory.

## What is proved

Each function states what it returns. Beyond that the library states laws over the
same definitions, among them: asking for the next image from none until none shows
every image outside keep and trash exactly once, descending the reverse of ascending,
and every image that is shown can be asked for by its name (`walk`, `tree`); the pages
of the gallery joined are the whole listing (`gallery`, `tree`); a sample repeats no
image and has the size asked for (`sample`, `tree`); a move and its undo leave every
file as it was, an undo reports where the file is, and a move overwrites nothing
(`moves`); a moved file stays below the directory it was moved to, and undoing the move
takes it back out of the totals (`moves`, `server`); an accepted name never leads out
of the base directory (`paths`); every sampler with a text is listed once, in the order
of the ids (`meta`).

What is believed without proof is marked `external_body`, `assume_specification` or
`uninterp`, with the outside function named in the comment above it.

## Configuration (environment)

| Variable | Default | Purpose |
| --- | --- | --- |
| `SOURCE_DIR`  | `/data/images` | Read root (walked recursively; keep/trash pruned) |
| `KEEP_DIR`    | `$SOURCE_DIR/keep`  | keep destination |
| `TRASH_DIR`   | `$SOURCE_DIR/trash` | trash destination |
| `ORDER`       | `asc`               | `asc` = oldest first, `desc` = newest first |
| `EXTENSIONS`  | `png,jpg,jpeg,webp` | image extensions to enumerate |
| `UNDO_DEPTH`  | `50`                | max undo stack depth |
| `BIND_ADDR`   | `0.0.0.0:8080`      | listen address |
| `TZ_OFFSET_HOURS` | `0`             | UTC offset (whole hours) for the day boundary |

## API

- `GET  /api/next?after=<relpath>`: next relpath, or 204 when drained
- `GET  /api/image/<relpath>`: image bytes
- `GET  /api/meta/<relpath>`: prompt JSON, positive and negative prompts
- `POST /api/keep`, `POST /api/trash` `{ "relpath": ... }`: move
- `POST /api/undo`: undo the last move (409 if not possible)
- `GET  /api/count`, `GET /api/stats`: backlog, today's totals
- `GET  /api/keep/list?after=<relpath>&limit=<n>`: kept images, newest first
- `GET  /api/keep/image/<relpath>`: kept image
- `GET  /api/keep/thumb/<relpath>`: kept image for the grid, served as it is (no codec is linked)
- `POST /api/keep/restore`, `POST /api/keep/trash` `{ "relpath": ... }`: move a kept image

`cull gen-fixtures [DIR]` writes a synthetic output tree below `DIR/output`.
