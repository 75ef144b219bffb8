# knapp

Reads a tree of Markdown notes by its links: forward links and backlinks,
wikilink resolution as Obsidian does it, tags, unresolved and ambiguous
targets, orphans, the local graph, full-text search, and a terminal pane
that browses it all.

- `src/` is the library, verified with Verus: parsing notes, resolving
  links, the index and its cache records, the tag tree, the unresolved
  listing, the local graph, rendering notes to styled lines, the pane's
  keys, history and lists, the CLI's reports, and the rules for search,
  sending notes to an agent, and watching the tree. Calls into
  pulldown-cmark, unicode-normalization, unicode-width, sha2 and
  serde_json (for the JSON that ripgrep, herdr and Obsidian write) stand
  behind small trusted wrappers whose contracts say what the call returns.
- `app/` is the `knapp` command around it: reading the environment, the
  config file and the tree, the cache file, ripgrep, herdr, the
  filesystem watcher, and the terminal.
- `tests/` runs the library on concrete notes.
