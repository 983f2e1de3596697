# outliner

The core of a block-based outliner and note-taking application: pages hold
trees of blocks, blocks carry Markdown text with `[[page links]]`,
`key:: value` properties and task markers (`TODO`, `DOING`, `DONE`, ...),
and a terminal view shows an outline with a cursor. The library is written
in Verus; its functions carry contracts that Verus proves.

## Layout

- `src/` — the verified library
  - `text.rs` — characters, UTF-8 byte lengths, searching, splitting, joining
  - `links.rs` — page links, link contexts, external links, slugs
  - `properties.rs` — block properties: extraction, validation, contexts, HTML
  - `tasks.rs` — task status, priority, due dates, tags, summaries, validation
  - `markdown.rs` — Markdown to HTML (through `pulldown-cmark`), task and
    link markers, plain text
  - `utils.rs` — identifiers, time, dates, titles and paths, hashing, words
  - `model.rs` — pages, blocks, sibling order values, block hierarchies
  - `db.rs` — the statements and plans of the store, search snippets, errors
  - `commands.rs` — the command layer: requests, responses and decisions
  - `outline.rs` — the terminal outline: tree building, visible rows, paths,
    expanding and collapsing, the cursor and edit state
  - `event.rs` — the event tick and key handling of the terminal view
- `tests/` — tests of the library on concrete values
- `app/` — a program around the library: a SQLite store (`rusqlite`) and a
  command loop that reads one JSON command per line on standard input and
  writes one JSON response per line

## Running the program

The program takes a data directory as its first argument (the current
directory by default), opens `database.db` there, makes sure today's daily
page exists, and answers commands such as

```json
{"command": "create_page", "args": {"request": {"title": "Ideas", "path": "ideas"}}}
{"command": "get_page_blocks", "args": {"page_id": 6}}
{"command": "search_blocks", "args": {"request": {"query": "outline", "limit": 10}}}
```
